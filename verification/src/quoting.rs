//! How bash spells one word, and the cursor a grammar builds on.
//!
//! A word is any of the quoting forms, and adjacent ones concatenate:
//! `'…'` (no escapes), `"…"` (`\$ \" \\ \`` and a line continuation), `$'…'`
//! (the full ANSI-C escape set), `$"…"` (read as double), and bare text up to
//! a stop character. Where a word ends belongs to the caller:
//! [`Cursor::word`] takes the stop characters.

use vstd::prelude::*;
use vstd::std_specs::convert::IntoSpec;

use crate::error::ParseError;
use crate::grammar::{
    ansi_loop, bare_loop, bare_scan, blank_run, double_loop, double_scan, escape_scan, has_prefix,
    hex_run, hex_value, in_class, is_blank, is_hex, is_octal, lemma_bare_loop_bounds,
    lemma_bounded_run_bounds, lemma_bounded_run_is, lemma_escape_bounds, lemma_quoted_bounds, lemma_run_len_is,
    lemma_segment_bounds, lemma_word_rest_bounds, lit_scan, octal_value, quoted_scan,
    segment_scan, shift, single_scan, trailing_msg, unicode_scan, word_rest, word_scan, Class,
    OptScan, Scan,
};
use crate::text::{
    around, byte_off, byte_offset, char_from_u32, chars_of, debug_quoted, fits,
    lemma_byte_len_utf8, lemma_byte_off_boundary, lemma_byte_off_prefix, lemma_utf8_concat,
    push_char, string_from,
};
use vstd::utf8::{encode_utf8, is_char_boundary};

verus! {

/// What an exec reader that returns a string did, against what the grammar
/// says a reader starting at `p0` of `text` does; `p1` is where it stopped.
pub open spec fn string_scan(
    r: Result<String, ParseError>,
    s: Scan<Seq<char>>,
    text: Seq<char>,
    p0: int,
    p1: int,
) -> bool {
    match s {
        Ok((v, k)) => r is Ok && r->Ok_0@ == v && p1 == p0 + k,
        Err((k, m)) => r is Err && r->Err_0.reports(text, p0 + k, m) && p1 == p0 + k,
    }
}

/// The same, for an optional form.
pub open spec fn opt_string_scan(
    r: Result<Option<String>, ParseError>,
    s: OptScan<Seq<char>>,
    text: Seq<char>,
    p0: int,
    p1: int,
) -> bool {
    match s {
        Ok(None) => r == Ok::<Option<String>, ParseError>(None) && p1 == p0,
        Ok(Some((v, k))) => r is Ok && r->Ok_0 is Some && r->Ok_0->Some_0@ == v && p1 == p0 + k,
        Err((k, m)) => r is Err && r->Err_0.reports(text, p0 + k, m) && p1 == p0 + k,
    }
}

/// The same, for a reader that returns nothing but success.
pub open spec fn unit_scan(
    r: Result<(), ParseError>,
    s: Scan<()>,
    text: Seq<char>,
    p0: int,
    p1: int,
) -> bool {
    match s {
        Ok((_, k)) => r is Ok && p1 == p0 + k,
        Err((k, m)) => r is Err && r->Err_0.reports(text, p0 + k, m) && p1 == p0 + k,
    }
}

/// A position in some text, and the bash word grammar over it.
///
/// Built by [`parse_with`], which is also what checks that a grammar consumed
/// the whole input.
pub struct Cursor<'a> {
    input: &'a str,
    chars: Vec<char>,
    pos: usize,
}

/// Whether a slice of stop characters holds `c`.
fn holds(stops: &[char], c: char) -> (b: bool)
    ensures
        b == stops@.contains(c),
{
    let mut i: usize = 0;
    while i < stops.len()
        invariant
            i <= stops.len(),
            forall|j: int| 0 <= j < i ==> stops@[j] != c,
        decreases stops.len() - i,
    {
        if stops[i] == c {
            assert(stops@[i as int] == c);
            return true;
        }
        i = i + 1;
    }
    false
}

/// A string holding the characters of a literal.
pub(crate) fn owned(text: &str) -> (s: String)
    ensures
        s@ == text@,
{
    String::from_str(text)
}

pub(crate) fn is_hex_char(c: char) -> (b: bool)
    ensures
        b == is_hex(c),
{
    ('0' <= c && c <= '9') || ('a' <= c && c <= 'f') || ('A' <= c && c <= 'F')
}

fn is_blank_char(c: char) -> (b: bool)
    ensures
        b == is_blank(c),
{
    c == ' ' || c == '\t' || c == '\n'
}

fn is_not_quote(c: char) -> (b: bool)
    ensures
        b == (c != '\''),
{
    c != '\''
}

pub(crate) fn is_octal_char(c: char) -> (b: bool)
    ensures
        b == is_octal(c),
{
    '0' <= c && c <= '7'
}

pub open spec fn pow16(n: nat) -> int
    decreases n,
{
    if n == 0 {
        1
    } else {
        16 * pow16((n - 1) as nat)
    }
}

pub proof fn lemma_hex_value_bound(d: Seq<char>)
    requires
        forall|i: int| 0 <= i < d.len() ==> is_hex(#[trigger] d[i]),
    ensures
        0 <= hex_value(d) < pow16(d.len()),
    decreases d.len(),
{
    if d.len() > 0 {
        let e = d.drop_last();
        assert forall|i: int| 0 <= i < e.len() implies is_hex(#[trigger] e[i]) by {
            assert(e[i] == d[i]);
        }
        lemma_hex_value_bound(e);
        assert(is_hex(d[d.len() - 1]));
    }
}

/// The value of up to eight hex digits.
pub(crate) fn hex_number(d: &Vec<char>) -> (v: u32)
    requires
        d.len() <= 8,
        forall|i: int| 0 <= i < d.len() ==> is_hex(#[trigger] d@[i]),
    ensures
        v == hex_value(d@),
{
    let mut v: u64 = 0;
    let mut i: usize = 0;
    while i < d.len()
        invariant
            i <= d.len() <= 8,
            forall|j: int| 0 <= j < d.len() ==> is_hex(#[trigger] d@[j]),
            v == hex_value(d@.take(i as int)),
            v < pow16(i as nat),
            pow16(i as nat) <= 4294967296,
        decreases d.len() - i,
    {
        let c = d[i];
        assert(is_hex(d@[i as int]));
        let digit: u64 = if '0' <= c && c <= '9' {
            (c as u64) - ('0' as u64)
        } else if 'a' <= c && c <= 'f' {
            (c as u64) - ('a' as u64) + 10
        } else {
            (c as u64) - ('A' as u64) + 10
        };
        proof {
            assert(d@.take(i + 1).drop_last() =~= d@.take(i as int));
            assert(pow16((i + 1) as nat) == 16 * pow16(i as nat));
            if i + 1 <= 8 {
                reveal_with_fuel(pow16, 9);
                assert(pow16(8) == 4294967296);
                if i + 1 < 8 {
                    lemma_pow16_mono((i + 1) as nat, 8);
                }
            }
        }
        v = v * 16 + digit;
        i = i + 1;
    }
    assert(d@.take(d.len() as int) =~= d@);
    v as u32
}

proof fn lemma_pow16_mono(a: nat, b: nat)
    requires
        a <= b,
    ensures
        pow16(a) <= pow16(b),
    decreases b,
{
    if a < b {
        lemma_pow16_mono(a, (b - 1) as nat);
        lemma_pow16_pos((b - 1) as nat);
    }
}

proof fn lemma_pow16_pos(a: nat)
    ensures
        pow16(a) >= 1,
    decreases a,
{
    if a > 0 {
        lemma_pow16_pos((a - 1) as nat);
    }
}

/// Run a grammar over the whole of `input`. Anything it leaves behind is an
/// error, so a grammar cannot quietly match a prefix.
pub fn parse_with<T, F: FnOnce(&mut Cursor<'_>) -> Result<T, ParseError>>(
    input: &str,
    grammar: F,
) -> (r: Result<T, ParseError>)
    requires
        fits(input@),
        forall|c: &mut Cursor<'_>| call_requires(grammar, (c,)),
    ensures
        exists|m: &mut Cursor<'_>, g: Result<T, ParseError>|
            {
                &&& call_ensures(grammar, (m,), g)
                &&& (*m).text() == input@
                &&& (*m).pos() == 0
                &&& match g {
                    Ok(t) => if final(m).pos() == final(m).text().len() {
                        r == Ok::<T, ParseError>(t)
                    } else {
                        r is Err && r->Err_0.reports(final(m).text(), final(m).pos(), trailing_msg())
                    },
                    Err(e) => r == Err::<T, ParseError>(e),
                }
            },
{
    let mut cursor = Cursor::over(input);
    let parsed = grammar(&mut cursor);
    proof {
        use_type_invariant(&cursor);
    }
    match parsed {
        Ok(t) => if cursor.at_end() {
            Ok(t)
        } else {
            Err(cursor.refuse(owned("trailing input")))
        },
        Err(e) => Err(e),
    }
}

impl<'a> Cursor<'a> {
    #[verifier::type_invariant]
    spec fn inv(self) -> bool {
        &&& self.chars@ == self.input@
        &&& self.pos <= self.chars.len()
        &&& fits(self.chars@)
    }

    /// The whole text the cursor walks.
    pub closed spec fn text(&self) -> Seq<char> {
        self.chars@
    }

    /// The character position reached so far.
    pub closed spec fn pos(&self) -> int {
        self.pos as int
    }

    /// What has not been read yet.
    pub open spec fn remaining(&self) -> Seq<char> {
        self.text().skip(self.pos())
    }

    pub open spec fn in_bounds(&self) -> bool {
        &&& 0 <= self.pos() <= self.text().len()
        &&& fits(self.text())
    }

    /// A cursor at the start of `input`.
    pub(crate) fn over(input: &'a str) -> (c: Self)
        requires
            fits(input@),
        ensures
            c.text() == input@,
            c.pos() == 0,
            c.in_bounds(),
    {
        let chars = chars_of(input);
        Cursor { input, chars, pos: 0 }
    }

    /// A cursor over `input` that starts at character `pos`.
    pub(crate) fn over_from(input: &'a str, pos: usize) -> (c: Self)
        requires
            fits(input@),
            pos <= input@.len(),
        ensures
            c.text() == input@,
            c.pos() == pos,
            c.in_bounds(),
    {
        let chars = chars_of(input);
        Cursor { input, chars, pos }
    }

    /// The byte offset reached so far.
    pub fn at(&self) -> (b: usize)
        ensures
            self.in_bounds(),
            b == byte_off(self.text(), self.pos()),
    {
        proof {
            use_type_invariant(self);
        }
        byte_offset(&self.chars, self.pos)
    }

    /// What has not been read yet.
    pub fn rest(&self) -> (r: &'a str)
        ensures
            self.in_bounds(),
            r@ == self.remaining(),
    {
        proof {
            use_type_invariant(self);
        }
        self.input.substring_char(self.pos, self.chars.len())
    }

    pub fn at_end(&self) -> (b: bool)
        ensures
            self.in_bounds(),
            b == (self.pos() == self.text().len()),
    {
        proof {
            use_type_invariant(self);
        }
        self.pos == self.chars.len()
    }

    pub fn peek(&self) -> (c: Option<char>)
        ensures
            self.in_bounds(),
            c == (if self.pos() < self.text().len() {
                Some(self.text()[self.pos()])
            } else {
                None
            }),
    {
        proof {
            use_type_invariant(self);
        }
        if self.pos < self.chars.len() {
            Some(self.chars[self.pos])
        } else {
            None
        }
    }

    pub fn starts_with(&self, text: &str) -> (b: bool)
        ensures
            self.in_bounds(),
            b == has_prefix(self.remaining(), text@),
    {
        proof {
            use_type_invariant(self);
        }
        let t = chars_of(text);
        if t.len() > self.chars.len() - self.pos {
            return false;
        }
        let mut i: usize = 0;
        while i < t.len()
            invariant
                self.in_bounds(),
                i <= t.len(),
                t@ == text@,
                self.pos + t.len() <= self.chars.len(),
                forall|j: int| 0 <= j < i ==> t@[j] == self.chars@[self.pos + j],
            decreases t.len() - i,
        {
            if t[i] != self.chars[self.pos + i] {
                assert(self.remaining().take(t.len() as int)[i as int] != t@[i as int]);
                return false;
            }
            i = i + 1;
        }
        assert(self.remaining().take(t.len() as int) =~= t@);
        true
    }

    /// A refusal at the current position, carrying the text around it, with
    /// the caller's message as `Into` converts it.
    pub fn fail<M: Into<String>>(&self, message: M) -> (e: ParseError)
        ensures
            self.in_bounds(),
            e.at == byte_off(self.text(), self.pos()),
            e.snippet@ == around(self.text(), e.at as int),
            call_ensures(M::into, (message,), e.message),
    {
        let m = message.into();
        self.refuse(m)
    }

    /// A refusal at the current position, with a message already built.
    pub(crate) fn refuse(&self, message: String) -> (e: ParseError)
        ensures
            self.in_bounds(),
            e.reports(self.text(), self.pos(), message@),
            e.message == message,
    {
        proof {
            use_type_invariant(self);
        }
        ParseError::at_char(&self.chars, self.pos, message)
    }

    /// Consume `text` if it is next, and say whether it was.
    pub fn eat(&mut self, text: &str) -> (b: bool)
        ensures
            old(self).pos() <= final(self).pos(),
            old(self).in_bounds(),
            final(self).text() == old(self).text(),
            final(self).in_bounds(),
            b == has_prefix(old(self).remaining(), text@),
            final(self).pos() == old(self).pos() + (if b {
                text@.len() as int
            } else {
                0
            }),
    {
        proof {
            use_type_invariant(&*self);
        }
        if self.starts_with(text) {
            let n = text.unicode_len();
            self.pos = self.pos + n;
            true
        } else {
            false
        }
    }

    /// Consume `text`, which must be next.
    pub fn lit(&mut self, text: &str) -> (r: Result<(), ParseError>)
        ensures
            old(self).pos() <= final(self).pos(),
            old(self).in_bounds(),
            final(self).text() == old(self).text(),
            final(self).in_bounds(),
            unit_scan(r, lit_scan(old(self).remaining(), text@), old(self).text(), old(self).pos(), final(self).pos()),
    {
        if self.eat(text) {
            Ok(())
        } else {
            let mut message = owned("expected ");
            let quoted = debug_quoted(text);
            message.append(quoted.as_str());
            Err(self.refuse(message))
        }
    }

    /// Every leading character the predicate accepts, possibly none.
    pub fn take_while<F: Fn(char) -> bool>(&mut self, accept: F) -> (taken: &'a str)
        requires
            forall|c: char| call_requires(accept, (c,)),
        ensures
            old(self).in_bounds(),
            final(self).text() == old(self).text(),
            final(self).in_bounds(),
            old(self).pos() <= final(self).pos(),
            taken@ == old(self).text().subrange(old(self).pos(), final(self).pos()),
            forall|i: int|
                old(self).pos() <= i < final(self).pos() ==> call_ensures(
                    accept,
                    (old(self).text()[i],),
                    true,
                ),
            final(self).pos() < final(self).text().len() ==> call_ensures(
                accept,
                (old(self).text()[final(self).pos()],),
                false,
            ),
    {
        proof {
            use_type_invariant(&*self);
        }
        let start = self.pos;
        let mut end = self.pos;
        while end < self.chars.len()
            invariant
                start <= end <= self.chars.len(),
                self.pos == start,
                forall|c: char| call_requires(accept, (c,)),
                forall|i: int| start <= i < end ==> call_ensures(accept, (self.chars@[i],), true),
            ensures
                start <= end <= self.chars.len(),
                self.pos == start,
                forall|i: int| start <= i < end ==> call_ensures(accept, (self.chars@[i],), true),
                end < self.chars.len() ==> call_ensures(accept, (self.chars@[end as int],), false),
            decreases self.chars.len() - end,
        {
            if !accept(self.chars[end]) {
                break;
            }
            end = end + 1;
        }
        self.pos = end;
        self.input.substring_char(start, end)
    }

    /// Spaces, tabs and newlines, possibly none.
    pub fn ws0(&mut self)
        ensures
            old(self).in_bounds(),
            final(self).text() == old(self).text(),
            final(self).in_bounds(),
            final(self).pos() == old(self).pos() + blank_run(old(self).remaining()),
            old(self).pos() <= final(self).pos(),
    {
        let ghost p0 = self.pos();
        self.take_while(is_blank_char);
        proof {
            let r = old(self).remaining();
            let n = self.pos() - p0;
            assert forall|i: int| 0 <= i < n implies in_class(Class::Blank, #[trigger] r[i]) by {
                assert(r[i] == self.text()[p0 + i]);
            }
            if n < r.len() {
                assert(r[n] == self.text()[self.pos()]);
            }
            lemma_run_len_is(r, Class::Blank, n);
        }
    }

    /// One word: a first segment, then every adjacent one that still belongs
    /// to it. The first must be there; a following one that will not read ends
    /// the word rather than failing it.
    pub fn word(&mut self, stops: &[char]) -> (r: Result<String, ParseError>)
        ensures
            old(self).pos() <= final(self).pos(),
            old(self).in_bounds(),
            final(self).text() == old(self).text(),
            final(self).in_bounds(),
            string_scan(r, word_scan(old(self).remaining(), stops@), old(self).text(), old(self).pos(), final(self).pos()),
    {
        let ghost text = self.text();
        let ghost p0 = self.pos();
        let ghost r0 = self.remaining();
        proof {
            reveal(word_scan);
            lemma_quoted_bounds(r0);
            lemma_bare_loop_bounds(r0, stops@, seq![]);
        }
        let first = self.quoted();
        let mut out = match first {
            Err(e) => return Err(e),
            Ok(Some(t)) => t,
            Ok(None) => match self.bare(stops) {
                Err(e) => return Err(e),
                Ok(t) => t,
            },
        };
        let ghost p1 = self.pos();
        let ghost t0 = out@;
        let ghost total = word_rest(text.skip(p1), stops@, t0);
        proof {
            assert(r0.skip(p1 - p0) =~= text.skip(p1));
            lemma_word_rest_bounds(text.skip(p1), stops@, t0);
        }
        loop
            invariant
                self.text() == text,
                text == old(self).text(),
                self.in_bounds(),
                p1 <= self.pos(),
                word_rest(self.remaining(), stops@, out@) == (total.0, total.1 - (self.pos() - p1)),
            ensures
                self.text() == text,
                self.in_bounds(),
                out@ == total.0,
                self.pos() == p1 + total.1,
            decreases self.text().len() - self.pos(),
        {
            let snapshot = self.pos;
            let ghost rem = self.remaining();
            proof {
                lemma_segment_bounds(rem, stops@);
            }
            match self.segment(stops) {
                Ok(Some(text_seg)) => {
                    proof {
                        let k = self.pos() - snapshot;
                        assert(rem.skip(k) =~= self.remaining());
                    }
                    out.append(text_seg.as_str());
                },
                _ => {
                    proof {
                        use_type_invariant(&*self);
                    }
                    self.pos = snapshot;
                    break;
                },
            }
        }
        Ok(out)
    }

    fn advance(&mut self)
        requires
            old(self).pos() < old(self).text().len(),
        ensures
            final(self).text() == old(self).text(),
            final(self).in_bounds(),
            final(self).pos() == old(self).pos() + 1,
    {
        proof {
            use_type_invariant(&*self);
        }
        self.pos = self.pos + 1;
    }

    /// A segment after the first: a quoting form, more bare text, or the end
    /// of the word.
    fn segment(&mut self, stops: &[char]) -> (r: Result<Option<String>, ParseError>)
        ensures
            final(self).text() == old(self).text(),
            final(self).in_bounds(),
            opt_string_scan(r, segment_scan(old(self).remaining(), stops@), old(self).text(), old(self).pos(), final(self).pos()),
    {
        proof {
            reveal(segment_scan);
        }
        let quoted = self.quoted();
        match quoted {
            Err(e) => return Err(e),
            Ok(Some(text)) => return Ok(Some(text)),
            Ok(None) => {},
        }
        match self.peek() {
            Some(c) => {
                if c == '\\' || !holds(stops, c) {
                    match self.bare(stops) {
                        Ok(t) => Ok(Some(t)),
                        Err(e) => Err(e),
                    }
                } else {
                    Ok(None)
                }
            },
            None => Ok(None),
        }
    }

    /// One of the quoting forms, or `None` where the cursor is not at one.
    fn quoted(&mut self) -> (r: Result<Option<String>, ParseError>)
        ensures
            final(self).text() == old(self).text(),
            final(self).in_bounds(),
            opt_string_scan(r, quoted_scan(old(self).remaining()), old(self).text(), old(self).pos(), final(self).pos()),
    {
        let ghost r0 = self.remaining();
        let ghost p0 = self.pos();
        proof {
            reveal(quoted_scan);
            reveal_strlit("$'");
            reveal_strlit("'");
            reveal_strlit("\"");
            reveal_strlit("$\"");
            assert("$'"@ =~= seq!['$', '\'']);
            assert("'"@ =~= seq!['\'']);
            assert("\""@ =~= seq!['"']);
            assert("$\""@ =~= seq!['$', '"']);
        }
        if self.eat("$'") {
            proof {
                assert(r0.skip(2) =~= self.remaining());
            }
            return match self.ansi_c() {
                Ok(t) => Ok(Some(t)),
                Err(e) => Err(e),
            };
        }
        if self.starts_with("'") {
            return match self.single() {
                Ok(t) => Ok(Some(t)),
                Err(e) => Err(e),
            };
        }
        if self.starts_with("\"") {
            return match self.double() {
                Ok(t) => Ok(Some(t)),
                Err(e) => Err(e),
            };
        }
        if self.starts_with("$\"") {
            self.advance();
            proof {
                assert(r0.skip(1) =~= self.remaining());
            }
            return match self.double() {
                Ok(t) => Ok(Some(t)),
                Err(e) => Err(e),
            };
        }
        Ok(None)
    }

    fn single(&mut self) -> (r: Result<String, ParseError>)
        ensures
            final(self).text() == old(self).text(),
            final(self).in_bounds(),
            string_scan(r, single_scan(old(self).remaining()), old(self).text(), old(self).pos(), final(self).pos()),
    {
        let ghost r0 = self.remaining();
        let ghost p0 = self.pos();
        proof {
            reveal_strlit("'");
            assert("'"@ =~= seq!['\'']);
        }
        match self.lit("'") {
            Ok(()) => {},
            Err(e) => return Err(e),
        }
        let ghost p1 = self.pos();
        let body = owned(self.take_while(is_not_quote));
        proof {
            let r = r0.skip(1);
            let n = self.pos() - p1;
            assert forall|i: int| 0 <= i < n implies in_class(Class::NotQuote, #[trigger] r[i]) by {
                assert(r[i] == self.text()[p1 + i]);
            }
            if n < r.len() {
                assert(r[n] == self.text()[self.pos()]);
            }
            lemma_run_len_is(r, Class::NotQuote, n);
            assert(body@ =~= r0.subrange(1, 1 + n));
        }
        if !self.eat("'") {
            proof {
                if self.pos() < self.text().len() {
                    assert(self.remaining().take(1) =~= seq!['\'']);
                }
            }
            return Err(self.refuse(owned("unterminated ' quote")));
        }
        Ok(body)
    }

    fn double(&mut self) -> (r: Result<String, ParseError>)
        ensures
            final(self).text() == old(self).text(),
            final(self).in_bounds(),
            string_scan(r, double_scan(old(self).remaining()), old(self).text(), old(self).pos(), final(self).pos()),
    {
        let ghost text = self.text();
        let ghost p0 = self.pos();
        let ghost r0 = self.remaining();
        proof {
            reveal_strlit("\"");
            assert("\""@ =~= seq!['"']);
        }
        match self.lit("\"") {
            Ok(()) => {},
            Err(e) => return Err(e),
        }
        let mut out = String::new();
        proof {
            assert(r0.skip(1) =~= self.remaining());
        }
        loop
            invariant
                self.text() == text,
                text == old(self).text(),
                p0 == old(self).pos(),
                r0 == old(self).remaining(),
                self.in_bounds(),
                p0 < self.pos(),
                double_scan(r0) == shift(double_loop(self.remaining(), out@), self.pos() - p0),
            decreases self.text().len() - self.pos(),
        {
            let ghost rem = self.remaining();
            let c = match self.peek() {
                Some(c) => c,
                None => return Err(self.refuse(owned("unterminated \" quote"))),
            };
            if c == '"' {
                self.advance();
                return Ok(out);
            }
            if c == '\\' {
                self.advance();
                match self.peek() {
                    Some(escaped) => {
                        if escaped == '$' || escaped == '"' || escaped == '\\' || escaped == '`' {
                            push_char(&mut out, escaped);
                        } else if escaped == '\n' {
                        } else {
                            push_char(&mut out, '\\');
                            push_char(&mut out, escaped);
                        }
                        self.advance();
                        proof {
                            assert(rem.skip(2) =~= self.remaining());
                        }
                    },
                    None => return Err(self.refuse(owned("a backslash at the end of the input"))),
                }
                continue;
            }
            push_char(&mut out, c);
            self.advance();
            proof {
                assert(rem.skip(1) =~= self.remaining());
            }
        }
    }

    /// The body of a `$'…'`, after its opening `$'`.
    fn ansi_c(&mut self) -> (r: Result<String, ParseError>)
        ensures
            final(self).text() == old(self).text(),
            final(self).in_bounds(),
            string_scan(r, ansi_loop(old(self).remaining(), seq![]), old(self).text(), old(self).pos(), final(self).pos()),
    {
        let ghost text = self.text();
        let ghost p0 = self.pos();
        let ghost r0 = self.remaining();
        let mut out = String::new();
        proof {
            use_type_invariant(&*self);
            assert(self.remaining() =~= r0);
        }
        loop
            invariant
                self.text() == text,
                text == old(self).text(),
                p0 == old(self).pos(),
                r0 == old(self).remaining(),
                self.in_bounds(),
                p0 <= self.pos(),
                ansi_loop(r0, seq![]) == shift(ansi_loop(self.remaining(), out@), self.pos() - p0),
            decreases self.text().len() - self.pos(),
        {
            let ghost rem = self.remaining();
            let c = match self.peek() {
                Some(c) => c,
                None => return Err(self.refuse(owned("unterminated $' quote"))),
            };
            if c == '\'' {
                self.advance();
                return Ok(out);
            }
            if c == '\\' {
                self.advance();
                let escaped = match self.peek() {
                    Some(e) => e,
                    None => return Err(self.refuse(owned("a backslash at the end of the input"))),
                };
                self.advance();
                proof {
                    assert(rem.skip(2) =~= self.remaining());
                    lemma_escape_bounds(rem.skip(2), escaped, out@);
                }
                let ghost before = self.pos();
                match self.escape(escaped, &mut out) {
                    Ok(()) => {},
                    Err(e) => return Err(e),
                }
                proof {
                    assert(rem.skip(2 + (self.pos() - before)) =~= self.remaining());
                }
                continue;
            }
            push_char(&mut out, c);
            self.advance();
            proof {
                assert(rem.skip(1) =~= self.remaining());
            }
        }
    }

    /// Up to `width` hex digits.
    fn hex(&mut self, width: usize) -> (digits: Vec<char>)
        ensures
            final(self).text() == old(self).text(),
            final(self).in_bounds(),
            final(self).pos() == old(self).pos() + hex_run(old(self).remaining(), width as int),
            digits@ == old(self).remaining().take(hex_run(old(self).remaining(), width as int)),
            digits.len() <= width,
            forall|i: int| 0 <= i < digits.len() ==> is_hex(#[trigger] digits@[i]),
    {
        proof {
            use_type_invariant(&*self);
        }
        let ghost r0 = self.remaining();
        let ghost p0 = self.pos();
        let mut out: Vec<char> = Vec::new();
        let mut taken: usize = 0;
        while taken < width
            invariant
                self.text() == old(self).text(),
                self.in_bounds(),
                r0 == old(self).remaining(),
                p0 == old(self).pos(),
                taken <= width,
                taken <= r0.len(),
                self.pos() == p0 + taken,
                out@ == r0.take(taken as int),
                forall|i: int| 0 <= i < taken ==> is_hex(#[trigger] r0[i]),
            ensures
                self.text() == old(self).text(),
                self.in_bounds(),
                taken <= width,
                taken <= r0.len(),
                self.pos() == p0 + taken,
                out@ == r0.take(taken as int),
                forall|i: int| 0 <= i < taken ==> is_hex(#[trigger] r0[i]),
                taken < width && taken < r0.len() ==> !is_hex(r0[taken as int]),
            decreases width - taken,
        {
            match self.peek() {
                Some(c) => {
                    proof {
                        assert(r0[taken as int] == c);
                    }
                    if is_hex_char(c) {
                        out.push(c);
                        self.advance();
                        taken = taken + 1;
                        proof {
                            assert(out@ =~= r0.take(taken as int));
                        }
                    } else {
                        break;
                    }
                },
                None => break,
            }
        }
        proof {
            lemma_bounded_run_is(r0, Class::Hex, width as int, taken as int);
            assert forall|i: int| 0 <= i < out.len() implies is_hex(#[trigger] out@[i]) by {
                assert(out@[i] == r0[i]);
            }
        }
        out
    }

    fn unicode(&mut self, width: usize, out: &mut String) -> (r: Result<(), ParseError>)
        requires
            width <= 8,
        ensures
            final(self).text() == old(self).text(),
            final(self).in_bounds(),
            match unicode_scan(old(self).remaining(), width as int, old(out)@) {
                Ok((acc, k)) => r is Ok && final(out)@ == acc && final(self).pos() == old(self).pos() + k,
                Err((k, m)) => r is Err && r->Err_0.reports(old(self).text(), old(self).pos() + k, m)
                    && final(self).pos() == old(self).pos() + k,
            },
    {
        proof {
            lemma_bounded_run_bounds(old(self).remaining(), Class::Hex, width as int);
        }
        let digits = self.hex(width);
        if digits.len() == 0 {
            return Err(self.refuse(owned("a unicode escape wants hex digits")));
        }
        let point = hex_number(&digits);
        match char_from_u32(point) {
            Some(c) => {
                push_char(out, c);
                Ok(())
            },
            None => Err(self.refuse(owned("not a Unicode scalar value"))),
        }
    }

    fn escape(&mut self, c: char, out: &mut String) -> (r: Result<(), ParseError>)
        ensures
            final(self).text() == old(self).text(),
            final(self).in_bounds(),
            match escape_scan(old(self).remaining(), c, old(out)@) {
                Ok((acc, k)) => r is Ok && final(out)@ == acc && final(self).pos() == old(self).pos() + k,
                Err((k, m)) => r is Err && r->Err_0.reports(old(self).text(), old(self).pos() + k, m)
                    && final(self).pos() == old(self).pos() + k,
            },
    {
        proof {
            use_type_invariant(&*self);
        }
        let ghost r0 = self.remaining();
        if c == 'a' {
            push_char(out, '\x07');
        } else if c == 'b' {
            push_char(out, '\x08');
        } else if c == 'e' || c == 'E' {
            push_char(out, '\x1B');
        } else if c == 'f' {
            push_char(out, '\x0C');
        } else if c == 'n' {
            push_char(out, '\n');
        } else if c == 'r' {
            push_char(out, '\r');
        } else if c == 't' {
            push_char(out, '\t');
        } else if c == 'v' {
            push_char(out, '\x0B');
        } else if c == '\\' || c == '\'' || c == '"' || c == '?' {
            push_char(out, c);
        } else if c == 'c' {
            let control = match self.peek() {
                Some(control) => control,
                None => return Err(self.refuse(owned("\\c with nothing after it"))),
            };
            self.advance();
            push_char(out, (((control as u32) & 0x1F) as u8) as char);
        } else if c == 'x' {
            proof {
                lemma_bounded_run_bounds(r0, Class::Hex, 2);
            }
            let digits = self.hex(2);
            if digits.len() == 0 {
                return Err(self.refuse(owned("\\x wants one or two hex digits")));
            }
            let byte = hex_number(&digits);
            proof {
                lemma_hex_value_bound(digits@);
                reveal_with_fuel(pow16, 3);
            }
            push_char(out, (byte as u8) as char);
        } else if c == 'u' {
            return self.unicode(4, out);
        } else if c == 'U' {
            return self.unicode(8, out);
        } else if is_octal_char(c) {
            let mut octal: Vec<char> = Vec::new();
            octal.push(c);
            let ghost p0 = self.pos();
            let mut taken: usize = 0;
            while taken < 2
                invariant
                    self.text() == old(self).text(),
                    self.in_bounds(),
                    r0 == old(self).remaining(),
                    p0 == old(self).pos(),
                    taken <= 2,
                    taken <= r0.len(),
                    self.pos() == p0 + taken,
                    octal@ == seq![c] + r0.take(taken as int),
                    forall|i: int| 0 <= i < taken ==> is_octal(#[trigger] r0[i]),
                ensures
                    self.text() == old(self).text(),
                    self.in_bounds(),
                    taken <= 2,
                    taken <= r0.len(),
                    self.pos() == p0 + taken,
                    octal@ == seq![c] + r0.take(taken as int),
                    forall|i: int| 0 <= i < taken ==> is_octal(#[trigger] r0[i]),
                    taken < 2 && taken < r0.len() ==> !is_octal(r0[taken as int]),
                decreases 2 - taken,
            {
                match self.peek() {
                    Some(digit) => {
                        proof {
                            assert(r0[taken as int] == digit);
                        }
                        if is_octal_char(digit) {
                            octal.push(digit);
                            self.advance();
                            taken = taken + 1;
                            proof {
                                assert(octal@ =~= seq![c] + r0.take(taken as int));
                            }
                        } else {
                            break;
                        }
                    },
                    None => break,
                }
            }
            proof {
                lemma_bounded_run_is(r0, Class::Octal, 2, taken as int);
                assert forall|j: int| 0 <= j < octal.len() implies is_octal(#[trigger] octal@[j]) by {
                    if j > 0 {
                        assert(octal@[j] == r0[j - 1]);
                    }
                }
            }
            let mut value: u32 = 0;
            let mut i: usize = 0;
            while i < octal.len()
                invariant
                    i <= octal.len() <= 3,
                    forall|j: int| 0 <= j < octal.len() ==> is_octal(#[trigger] octal@[j]),
                    value == octal_value(octal@.take(i as int)),
                    value < 512,
                    i <= 1 ==> value < 8,
                    i <= 2 ==> value < 64,
                decreases octal.len() - i,
            {
                let d = octal[i];
                proof {
                    assert(is_octal(octal@[i as int]));
                    assert(octal@.take(i + 1).drop_last() =~= octal@.take(i as int));
                    assert(octal@.take(i + 1).last() == d);
                }
                value = value * 8 + ((d as u32) - ('0' as u32));
                i = i + 1;
            }
            proof {
                assert(octal@.take(octal.len() as int) =~= octal@);
            }
            if value > 255 {
                let mut message = owned("octal escape \\");
                let digits = string_from(&octal);
                message.append(digits.as_str());
                message.append(" is above \\377");
                return Err(self.refuse(message));
            }
            push_char(out, (value as u8) as char);
        } else {
            push_char(out, '\\');
            push_char(out, c);
        }
        Ok(())
    }

    /// Unquoted text up to a stop character. A backslash takes the next
    /// character whatever it is, and a backslash-newline is a line
    /// continuation. Empty is how [`word`](Cursor::word) learns a segment
    /// ended, so it is an error the caller catches rather than a value.
    fn bare(&mut self, stops: &[char]) -> (r: Result<String, ParseError>)
        ensures
            final(self).text() == old(self).text(),
            final(self).in_bounds(),
            string_scan(r, bare_scan(old(self).remaining(), stops@), old(self).text(), old(self).pos(), final(self).pos()),
    {
        proof {
            use_type_invariant(&*self);
        }
        let ghost text = self.text();
        let ghost p0 = self.pos();
        let ghost r0 = self.remaining();
        let ghost total = bare_loop(r0, stops@, seq![]);
        let mut out = String::new();
        proof {
            assert(self.remaining() =~= r0);
        }
        loop
            invariant
                self.text() == text,
                text == old(self).text(),
                p0 == old(self).pos(),
                r0 == old(self).remaining(),
                total == bare_loop(r0, stops@, seq![]),
                self.in_bounds(),
                p0 <= self.pos(),
                bare_loop(self.remaining(), stops@, out@) == (total.0, total.1 - (self.pos() - p0)),
            ensures
                self.text() == text,
                self.in_bounds(),
                out@ == total.0,
                self.pos() == p0 + total.1,
            decreases self.text().len() - self.pos(),
        {
            proof {
                use_type_invariant(&*self);
            }
            let ghost rem = self.remaining();
            let c = match self.peek() {
                Some(c) => c,
                None => break,
            };
            if c == '\'' || c == '"' || c == '$' {
                break;
            }
            if c == '\\' {
                if self.pos + 1 < self.chars.len() {
                    let escaped = self.chars[self.pos + 1];
                    if escaped != '\n' {
                        push_char(&mut out, escaped);
                    }
                    self.pos = self.pos + 2;
                    proof {
                        assert(rem[1] == escaped);
                        assert(rem.skip(2) =~= self.remaining());
                    }
                    continue;
                } else {
                    // The backslash stays unread, so the word ends here.
                    break;
                }
            }
            if holds(stops, c) {
                break;
            }
            push_char(&mut out, c);
            self.advance();
            proof {
                assert(rem.skip(1) =~= self.remaining());
            }
        }
        if out.as_str().is_empty() {
            Err(self.refuse(owned("expected a word")))
        } else {
            Ok(out)
        }
    }
}

/// What has been read and what is left make up the whole input, in bytes,
/// as `str` counts them (`str::len` is the length of the UTF-8 encoding):
/// `&input[at()..]` is `rest()`, so `at() + rest().len()` is `input.len()`,
/// and `at()` is a character boundary of the input, wherever the cursor
/// stands.
pub proof fn law_at_and_rest(c: Cursor)
    requires
        c.in_bounds(),
    ensures
        encode_utf8(c.remaining()) == encode_utf8(c.text()).skip(byte_off(c.text(), c.pos())),
        byte_off(c.text(), c.pos()) + encode_utf8(c.remaining()).len() == encode_utf8(
            c.text(),
        ).len(),
        is_char_boundary(encode_utf8(c.text()), byte_off(c.text(), c.pos())),
{
    let t = c.text();
    let p = c.pos();
    let head = t.take(p);
    assert(t =~= head + c.remaining());
    lemma_utf8_concat(head, c.remaining());
    lemma_byte_len_utf8(head);
    assert(head.take(p) =~= t.take(p));
    lemma_byte_off_prefix(t, head, p);
    assert(encode_utf8(t).skip(byte_off(t, p)) =~= encode_utf8(c.remaining()));
    lemma_byte_off_boundary(t, p);
}

} // verus!
