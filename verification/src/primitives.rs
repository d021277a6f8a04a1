//! The single-word level: one bash literal word as `${var@Q}` writes it,
//! read back or written out, with a refusal type of its own.

use vstd::prelude::*;

use crate::emit::{decimal_text, push_decimal};
use crate::parser::{
    lemma_trim_is_subrange, lemma_trim_start, lemma_views_push, trim, trim_spaces, trim_start,
    trim_start_spaces, views,
};
use crate::grammar::{
    byte_char, hex_run, hex_value, in_class, is_hex, is_octal, lemma_bounded_run_bounds,
    lemma_bounded_run_is, lemma_run_len_bounds, octal_run, octal_value, run_len, Class,
};
use crate::quoting::{hex_number, is_hex_char, is_octal_char, lemma_hex_value_bound, owned, pow16};
use crate::text::{
    byte_off, byte_offset, char_from_u32, chars_of, fits, is_scalar_value, lemma_fits_subrange,
    push_char, string_of,
};

verus! {

/// Why a word did not read.
#[derive(Debug, Clone, PartialEq)]
pub enum ParseError {
    UnterminatedSingleQuote,
    UnterminatedAnsiCQuote,
    InvalidEscapeSequence(String),
    InvalidHexEscape(String),
    InvalidUnicodeEscape(String),
    InvalidOctalEscape(String),
    ExpectedPair(String),
    TrailingContent(String),
    InvalidFormat(String),
}

/// A refusal as the contracts see it.
pub enum Refusal {
    UnterminatedSingleQuote,
    UnterminatedAnsiCQuote,
    InvalidEscapeSequence(Seq<char>),
    InvalidHexEscape(Seq<char>),
    InvalidUnicodeEscape(Seq<char>),
    InvalidOctalEscape(Seq<char>),
    ExpectedPair(Seq<char>),
    TrailingContent(Seq<char>),
    InvalidFormat(Seq<char>),
}

impl View for ParseError {
    type V = Refusal;

    open spec fn view(&self) -> Refusal {
        match self {
            ParseError::UnterminatedSingleQuote => Refusal::UnterminatedSingleQuote,
            ParseError::UnterminatedAnsiCQuote => Refusal::UnterminatedAnsiCQuote,
            ParseError::InvalidEscapeSequence(s) => Refusal::InvalidEscapeSequence(s@),
            ParseError::InvalidHexEscape(s) => Refusal::InvalidHexEscape(s@),
            ParseError::InvalidUnicodeEscape(s) => Refusal::InvalidUnicodeEscape(s@),
            ParseError::InvalidOctalEscape(s) => Refusal::InvalidOctalEscape(s@),
            ParseError::ExpectedPair(s) => Refusal::ExpectedPair(s@),
            ParseError::TrailingContent(s) => Refusal::TrailingContent(s@),
            ParseError::InvalidFormat(s) => Refusal::InvalidFormat(s@),
        }
    }
}

impl ParseError {
    /// How the refusal reads to a person.
    pub open spec fn text(&self) -> Seq<char> {
        match self {
            ParseError::UnterminatedSingleQuote => "unterminated single quote"@,
            ParseError::UnterminatedAnsiCQuote => "unterminated $'...' quote"@,
            ParseError::InvalidEscapeSequence(s) => "invalid escape: "@ + s@,
            ParseError::InvalidHexEscape(s) => "invalid hex escape: "@ + s@,
            ParseError::InvalidUnicodeEscape(s) => "invalid unicode escape: "@ + s@,
            ParseError::InvalidOctalEscape(s) => "invalid octal escape: "@ + s@,
            ParseError::ExpectedPair(s) => "expected key-value pair: "@ + s@,
            ParseError::TrailingContent(s) => "trailing content: "@ + s@,
            ParseError::InvalidFormat(s) => "invalid format: "@ + s@,
        }
    }

    /// The refusal as a person reads it.
    pub fn describe(&self) -> (s: String)
        ensures
            s@ == self.text(),
    {
        match self {
            ParseError::UnterminatedSingleQuote => owned("unterminated single quote"),
            ParseError::UnterminatedAnsiCQuote => owned("unterminated $'...' quote"),
            ParseError::InvalidEscapeSequence(s) => {
                let mut out = owned("invalid escape: ");
                out.append(s.as_str());
                out
            },
            ParseError::InvalidHexEscape(s) => {
                let mut out = owned("invalid hex escape: ");
                out.append(s.as_str());
                out
            },
            ParseError::InvalidUnicodeEscape(s) => {
                let mut out = owned("invalid unicode escape: ");
                out.append(s.as_str());
                out
            },
            ParseError::InvalidOctalEscape(s) => {
                let mut out = owned("invalid octal escape: ");
                out.append(s.as_str());
                out
            },
            ParseError::ExpectedPair(s) => {
                let mut out = owned("expected key-value pair: ");
                out.append(s.as_str());
                out
            },
            ParseError::TrailingContent(s) => {
                let mut out = owned("trailing content: ");
                out.append(s.as_str());
                out
            },
            ParseError::InvalidFormat(s) => {
                let mut out = owned("invalid format: ");
                out.append(s.as_str());
                out
            },
        }
    }
}

// ---- `'…'` -------------------------------------------------------------------

/// The body of a `'…'` after its opening quote: everything up to the next
/// `'`, and how much that took with the closing quote.
pub open spec fn single_read(r: Seq<char>) -> Result<(Seq<char>, int), Refusal> {
    let n = run_len(r, Class::NotQuote);
    if n < r.len() {
        Ok((r.take(n), n + 1))
    } else {
        Err(Refusal::UnterminatedSingleQuote)
    }
}

fn single_in(chars: &Vec<char>, from: usize) -> (r: Result<(String, usize), ParseError>)
    requires
        from <= chars.len(),
    ensures
        match single_read(chars@.skip(from as int)) {
            Ok((w, n)) => r is Ok && r->Ok_0.0@ == w && r->Ok_0.1 == from + n,
            Err(e) => r is Err && r->Err_0@ == e,
        },
{
    let ghost body = chars@.skip(from as int);
    proof {
        lemma_run_len_bounds(body, Class::NotQuote);
    }
    let mut k: usize = from;
    while k < chars.len() && chars[k] != '\''
        invariant
            from <= k <= chars.len(),
            body == chars@.skip(from as int),
            k - from <= run_len(body, Class::NotQuote),
            forall|i: int| 0 <= i < run_len(body, Class::NotQuote) ==> in_class(Class::NotQuote, #[trigger] body[i]),
            run_len(body, Class::NotQuote) < body.len() ==> !in_class(Class::NotQuote, body[run_len(body, Class::NotQuote)]),
        decreases chars.len() - k,
    {
        assert(body[k - from] == chars@[k as int]);
        k = k + 1;
    }
    proof {
        if k < chars.len() {
            assert(body[k - from] == '\'');
        }
    }
    if k >= chars.len() {
        return Err(ParseError::UnterminatedSingleQuote);
    }
    let text = string_of(chars, from, k);
    assert(text@ =~= body.take(k - from));
    Ok((text, k + 1))
}

/// Parse the interior of a `'...'` single-quoted string, after its opening
/// `'`: the literal content, and what follows the closing quote. No escapes.
pub fn parse_single_quoted_body(input: &str) -> (r: Result<(String, &str), ParseError>)
    ensures
        match single_read(input@) {
            Ok((w, n)) => r is Ok && r->Ok_0.0@ == w && r->Ok_0.1@ == input@.skip(n),
            Err(e) => r is Err && r->Err_0@ == e,
        },
{
    let chars = chars_of(input);
    assert(chars@.skip(0) =~= chars@);
    match single_in(&chars, 0) {
        Ok((text, end)) => Ok((text, input.substring_char(end, chars.len()))),
        Err(e) => Err(e),
    }
}

// ---- `$'…'` ------------------------------------------------------------------

/// `\x at position 3: no hex digits`: an escape with no digits after it.
pub open spec fn no_digits_msg(c: char, at: int) -> Seq<char> {
    seq!['\\', c] + " at position "@ + decimal_text(at as nat) + ": no hex digits"@
}

/// The escape whose backslash is at `k` of `r`, with `acc` read so far: what
/// has been read after it, and where reading goes on.
pub open spec fn escape_read(r: Seq<char>, k: int, acc: Seq<char>) -> Result<(Seq<char>, int), Refusal> {
    let c = r[k + 1];
    let j = k + 2;
    let rest = r.skip(j);
    if c == 'a' {
        Ok((acc.push('\x07'), j))
    } else if c == 'b' {
        Ok((acc.push('\x08'), j))
    } else if c == 'e' || c == 'E' {
        Ok((acc.push('\x1B'), j))
    } else if c == 'f' {
        Ok((acc.push('\x0C'), j))
    } else if c == 'n' {
        Ok((acc.push('\n'), j))
    } else if c == 'r' {
        Ok((acc.push('\r'), j))
    } else if c == 't' {
        Ok((acc.push('\t'), j))
    } else if c == 'v' {
        Ok((acc.push('\x0B'), j))
    } else if c == '\\' || c == '\'' || c == '"' || c == '?' {
        Ok((acc.push(c), j))
    } else if c == 'x' {
        let n = hex_run(rest, 2);
        if n == 0 {
            Err(Refusal::InvalidHexEscape(no_digits_msg(c, byte_off(r, k))))
        } else {
            Ok((acc.push(byte_char(hex_value(rest.take(n)))), j + n))
        }
    } else if c == 'u' || c == 'U' {
        let n = hex_run(rest, if c == 'u' { 4 } else { 8 });
        if n == 0 {
            Err(Refusal::InvalidUnicodeEscape(no_digits_msg(c, byte_off(r, k))))
        } else if is_scalar_value(hex_value(rest.take(n))) {
            Ok((acc.push(hex_value(rest.take(n)) as char), j + n))
        } else {
            Err(Refusal::InvalidUnicodeEscape(seq!['\\', c] + rest.take(n)))
        }
    } else if is_octal(c) {
        let n = octal_run(rest, 2);
        let digits = seq![c] + rest.take(n);
        if octal_value(digits) <= 255 {
            Ok((acc.push(byte_char(octal_value(digits))), j + n))
        } else {
            Err(Refusal::InvalidOctalEscape(seq!['\\'] + digits))
        }
    } else {
        Err(Refusal::InvalidEscapeSequence(seq!['\\', c]))
    }
}

/// The body of a `$'…'` from `k` on, with `acc` read so far: what it reads
/// as, and how much it took with the closing quote.
pub open spec fn ansi_read(r: Seq<char>, k: int, acc: Seq<char>) -> Result<(Seq<char>, int), Refusal>
    decreases r.len() - k,
{
    if k < 0 || k >= r.len() {
        Err(Refusal::UnterminatedAnsiCQuote)
    } else if r[k] == '\'' {
        Ok((acc, k + 1))
    } else if r[k] == '\\' {
        if k + 1 >= r.len() {
            Err(Refusal::UnterminatedAnsiCQuote)
        } else {
            match escape_read(r, k, acc) {
                Err(e) => Err(e),
                Ok((next, j)) => if k < j <= r.len() {
                    ansi_read(r, j, next)
                } else {
                    Err(Refusal::UnterminatedAnsiCQuote)
                },
            }
        }
    } else {
        ansi_read(r, k + 1, acc.push(r[k]))
    }
}

/// An escape reads on from past its digits, and never past the text.
proof fn lemma_escape_read_bounds(r: Seq<char>, k: int, acc: Seq<char>)
    requires
        0 <= k,
        k + 1 < r.len(),
    ensures
        match escape_read(r, k, acc) {
            Ok((_, j)) => k + 2 <= j <= r.len(),
            Err(_) => true,
        },
{
    let rest = r.skip(k + 2);
    lemma_bounded_run_bounds(rest, Class::Hex, 2);
    lemma_bounded_run_bounds(rest, Class::Hex, 4);
    lemma_bounded_run_bounds(rest, Class::Hex, 8);
    lemma_bounded_run_bounds(rest, Class::Octal, 2);
}

/// A `$'…'` body reads to past its closing quote, and never past the text.
pub proof fn lemma_ansi_read_bounds(r: Seq<char>, k: int, acc: Seq<char>)
    requires
        0 <= k,
    ensures
        match ansi_read(r, k, acc) {
            Ok((_, n)) => k < n <= r.len(),
            Err(_) => true,
        },
    decreases r.len() - k,
{
    if k < r.len() && r[k] != '\'' {
        if r[k] == '\\' {
            if k + 1 < r.len() {
                lemma_escape_read_bounds(r, k, acc);
                match escape_read(r, k, acc) {
                    Ok((next, j)) => {
                        if k < j <= r.len() {
                            lemma_ansi_read_bounds(r, j, next);
                        }
                    },
                    Err(_) => {},
                }
            }
        } else {
            lemma_ansi_read_bounds(r, k + 1, acc.push(r[k]));
        }
    }
}

/// The hex digits at `at`, at most `max` of them.
fn collect_hex_digits(chars: &Vec<char>, at: usize, max: usize) -> (digits: Vec<char>)
    requires
        at <= chars.len(),
    ensures
        digits@ == chars@.skip(at as int).take(hex_run(chars@.skip(at as int), max as int)),
        digits.len() == hex_run(chars@.skip(at as int), max as int),
        digits.len() <= max,
        at + digits.len() <= chars.len(),
        forall|i: int| 0 <= i < digits.len() ==> is_hex(#[trigger] digits@[i]),
{
    let ghost r = chars@.skip(at as int);
    let mut digits: Vec<char> = Vec::new();
    let mut taken: usize = 0;
    while taken < max && at + taken < chars.len() && is_hex_char(chars[at + taken])
        invariant
            at <= chars.len(),
            r == chars@.skip(at as int),
            taken <= max,
            at + taken <= chars.len(),
            digits@ == r.take(taken as int),
            forall|i: int| 0 <= i < taken ==> in_class(Class::Hex, #[trigger] r[i]),
        decreases max - taken,
    {
        digits.push(chars[at + taken]);
        assert(r[taken as int] == chars@[at + taken]);
        taken = taken + 1;
        assert(digits@ =~= r.take(taken as int));
    }
    proof {
        if taken < max && at + taken < chars.len() {
            assert(r[taken as int] == chars@[at + taken]);
        }
        lemma_bounded_run_is(r, Class::Hex, max as int, taken as int);
        assert forall|i: int| 0 <= i < digits.len() implies is_hex(#[trigger] digits@[i]) by {
            assert(in_class(Class::Hex, r[i]));
        }
    }
    digits
}

/// The byte offset of character `k` counted from character `from`.
fn offset_from(chars: &Vec<char>, from: usize, k: usize) -> (b: usize)
    requires
        fits(chars@),
        from <= k <= chars.len(),
    ensures
        b == byte_off(chars@.skip(from as int), k - from),
{
    let mut body: Vec<char> = Vec::new();
    let mut i: usize = from;
    while i < chars.len()
        invariant
            from <= i <= chars.len(),
            body@ == chars@.subrange(from as int, i as int),
        decreases chars.len() - i,
    {
        body.push(chars[i]);
        i = i + 1;
        assert(body@ =~= chars@.subrange(from as int, i as int));
    }
    proof {
        assert(body@ =~= chars@.skip(from as int));
        lemma_fits_subrange(chars@, from as int, chars.len() as int);
    }
    byte_offset(&body, k - from)
}

/// The value of one to three octal digits.
fn octal_number(d: &Vec<char>) -> (v: u32)
    requires
        d.len() <= 3,
        forall|i: int| 0 <= i < d.len() ==> is_octal(#[trigger] d@[i]),
    ensures
        v == octal_value(d@),
{
    let mut value: u32 = 0;
    let mut i: usize = 0;
    while i < d.len()
        invariant
            i <= d.len() <= 3,
            forall|j: int| 0 <= j < d.len() ==> is_octal(#[trigger] d@[j]),
            value == octal_value(d@.take(i as int)),
            value < 512,
            i <= 1 ==> value < 8,
            i <= 2 ==> value < 64,
        decreases d.len() - i,
    {
        let c = d[i];
        proof {
            assert(is_octal(d@[i as int]));
            assert(d@.take(i + 1).drop_last() =~= d@.take(i as int));
            assert(d@.take(i + 1).last() == c);
        }
        value = value * 8 + ((c as u32) - ('0' as u32));
        i = i + 1;
    }
    assert(d@.take(d.len() as int) =~= d@);
    value
}

/// The text of an escape as written: a backslash, its letter, its digits.
fn escape_text(lead: char, digits: &Vec<char>) -> (s: String)
    ensures
        s@ == seq!['\\', lead] + digits@,
{
    let mut s = String::new();
    push_char(&mut s, '\\');
    push_char(&mut s, lead);
    let mut i: usize = 0;
    while i < digits.len()
        invariant
            i <= digits.len(),
            s@ == seq!['\\', lead] + digits@.take(i as int),
        decreases digits.len() - i,
    {
        push_char(&mut s, digits[i]);
        i = i + 1;
        assert(s@ =~= seq!['\\', lead] + digits@.take(i as int));
    }
    assert(digits@.take(digits.len() as int) =~= digits@);
    s
}

/// `\x at position 3: no hex digits`.
fn no_digits_message(c: char, at: usize) -> (s: String)
    ensures
        s@ == no_digits_msg(c, at as int),
{
    let mut s = String::new();
    push_char(&mut s, '\\');
    push_char(&mut s, c);
    s.append(" at position ");
    push_decimal(&mut s, at);
    s.append(": no hex digits");
    assert(s@ =~= no_digits_msg(c, at as int));
    s
}

/// The escape whose backslash is at `k`, with the body starting at `from`.
fn escape_in(chars: &Vec<char>, from: usize, k: usize, out: &mut String) -> (r: Result<usize, ParseError>)
    requires
        fits(chars@),
        from <= k,
        k + 1 < chars.len(),
    ensures
        match escape_read(chars@.skip(from as int), k - from, old(out)@) {
            Ok((acc, j)) => r is Ok && final(out)@ == acc && r->Ok_0 == from + j,
            Err(e) => r is Err && r->Err_0@ == e,
        },
{
    let ghost r = chars@.skip(from as int);
    let ghost rk = k - from;
    let c = chars[k + 1];
    assert(r[rk + 1] == c);
    let j = k + 2;
    assert(r.skip(rk + 2) =~= chars@.skip(j as int));
    if c == 'a' {
        push_char(out, '\x07');
    } else if c == 'b' {
        push_char(out, '\x08');
    } else if c == 'e' || c == 'E' {
        push_char(out, '\x1B');
    } else if c == 'f' {
        push_char(out, '\x0C');
    } else if c == 'n' {
        push_char(out, '\n');
    } else if c == 'r' {
        push_char(out, '\r');
    } else if c == 't' {
        push_char(out, '\t');
    } else if c == 'v' {
        push_char(out, '\x0B');
    } else if c == '\\' || c == '\'' || c == '"' || c == '?' {
        push_char(out, c);
    } else if c == 'x' {
        let hex = collect_hex_digits(chars, j, 2);
        if hex.len() == 0 {
            let at = offset_from(chars, from, k);
            return Err(ParseError::InvalidHexEscape(no_digits_message(c, at)));
        }
        let val = hex_number(&hex);
        proof {
            lemma_hex_value_bound(hex@);
            reveal_with_fuel(pow16, 3);
        }
        push_char(out, (val as u8) as char);
        return Ok(j + hex.len());
    } else if c == 'u' || c == 'U' {
        let width: usize = if c == 'u' {
            4
        } else {
            8
        };
        let hex = collect_hex_digits(chars, j, width);
        if hex.len() == 0 {
            let at = offset_from(chars, from, k);
            return Err(ParseError::InvalidUnicodeEscape(no_digits_message(c, at)));
        }
        let point = hex_number(&hex);
        match char_from_u32(point) {
            Some(ch) => {
                push_char(out, ch);
                return Ok(j + hex.len());
            },
            None => {
                return Err(ParseError::InvalidUnicodeEscape(escape_text(c, &hex)));
            },
        }
    } else if is_octal_char(c) {
        let mut octal: Vec<char> = Vec::new();
        octal.push(c);
        let ghost rest = chars@.skip(j as int);
        let mut taken: usize = 0;
        while taken < 2 && j + taken < chars.len() && is_octal_char(chars[j + taken])
            invariant
                j <= chars.len(),
                rest == chars@.skip(j as int),
                taken <= 2,
                j + taken <= chars.len(),
                octal@ == seq![c] + rest.take(taken as int),
                is_octal(c),
                forall|i: int| 0 <= i < taken ==> in_class(Class::Octal, #[trigger] rest[i]),
            decreases 2 - taken,
        {
            octal.push(chars[j + taken]);
            assert(rest[taken as int] == chars@[j + taken]);
            taken = taken + 1;
            assert(octal@ =~= seq![c] + rest.take(taken as int));
        }
        proof {
            if taken < 2 && j + taken < chars.len() {
                assert(rest[taken as int] == chars@[j + taken]);
            }
            lemma_bounded_run_is(rest, Class::Octal, 2, taken as int);
            assert forall|i: int| 0 <= i < octal.len() implies is_octal(#[trigger] octal@[i]) by {
                if i > 0 {
                    assert(octal@[i] == rest[i - 1]);
                    assert(in_class(Class::Octal, rest[i - 1]));
                }
            }
        }
        let value = octal_number(&octal);
        if value > 255 {
            let mut text = String::new();
            push_char(&mut text, '\\');
            let digits = string_of(&octal, 0, octal.len());
            text.append(digits.as_str());
            assert(octal@.subrange(0, octal.len() as int) =~= octal@);
            assert(text@ =~= seq!['\\'] + octal@);
            return Err(ParseError::InvalidOctalEscape(text));
        }
        push_char(out, (value as u8) as char);
        return Ok(j + taken);
    } else {
        let mut text = String::new();
        push_char(&mut text, '\\');
        push_char(&mut text, c);
        assert(text@ =~= seq!['\\', c]);
        return Err(ParseError::InvalidEscapeSequence(text));
    }
    Ok(j)
}

/// A `$'…'` body starting at `from`: what it reads as, and where reading
/// goes on after its closing quote.
fn ansi_in(chars: &Vec<char>, from: usize) -> (r: Result<(String, usize), ParseError>)
    requires
        fits(chars@),
        from <= chars.len(),
    ensures
        match ansi_read(chars@.skip(from as int), 0, seq![]) {
            Ok((w, n)) => r is Ok && r->Ok_0.0@ == w && r->Ok_0.1 == from + n,
            Err(e) => r is Err && r->Err_0@ == e,
        },
{
    let ghost body = chars@.skip(from as int);
    let mut result = String::new();
    let mut k: usize = from;
    loop
        invariant
            fits(chars@),
            from <= k <= chars.len(),
            body == chars@.skip(from as int),
            ansi_read(body, 0, seq![]) == ansi_read(body, k - from, result@),
        decreases chars.len() - k,
    {
        if k >= chars.len() {
            return Err(ParseError::UnterminatedAnsiCQuote);
        }
        let c = chars[k];
        assert(body[k - from] == c);
        if c == '\'' {
            return Ok((result, k + 1));
        }
        if c == '\\' {
            if k + 1 >= chars.len() {
                return Err(ParseError::UnterminatedAnsiCQuote);
            }
            proof {
                lemma_escape_read_bounds(body, k - from, result@);
            }
            let ghost before = result@;
            match escape_in(chars, from, k, &mut result) {
                Ok(next) => {
                    k = next;
                },
                Err(e) => {
                    return Err(e);
                },
            }
        } else {
            push_char(&mut result, c);
            k = k + 1;
        }
    }
}

/// Parse the interior of a `$'...'` ANSI-C quoted string, after its opening
/// `$'`: what it reads as, and what follows the closing quote.
pub fn parse_ansi_c_body(input: &str) -> (r: Result<(String, &str), ParseError>)
    requires
        fits(input@),
    ensures
        match ansi_read(input@, 0, seq![]) {
            Ok((w, n)) => r is Ok && r->Ok_0.0@ == w && r->Ok_0.1@ == input@.skip(n),
            Err(e) => r is Err && r->Err_0@ == e,
        },
{
    let chars = chars_of(input);
    assert(chars@.skip(0) =~= chars@);
    proof {
        lemma_ansi_read_bounds(input@, 0, seq![]);
    }
    match ansi_in(&chars, 0) {
        Ok((text, end)) => Ok((text, input.substring_char(end, chars.len()))),
        Err(e) => Err(e),
    }
}

// ---- one word --------------------------------------------------------------------

/// `u8::is_ascii_whitespace`: space, tab, newline, form feed, carriage return.
pub open spec fn is_ascii_white(b: int) -> bool {
    b == 0x20 || b == 0x09 || b == 0x0A || b == 0x0C || b == 0x0D
}

/// A byte that can stand unquoted in a word.
pub open spec fn is_word_byte(b: int) -> bool {
    &&& !is_ascii_white(b)
    &&& b != 0x28 && b != 0x29 && b != 0x5B && b != 0x5D
    &&& b != 0x27 && b != 0x22 && b != 0x24 && b != 0x5C
}

/// A character that can stand unquoted in a word: any past ASCII, and an
/// ASCII one that is a word byte.
pub open spec fn word_char(c: char) -> bool {
    (c as u32) >= 0x80 || is_word_byte(c as u32 as int)
}

/// A character that ends a word where it stands: it starts no quote, no
/// escape and no unquoted run.
pub open spec fn stops_word(c: char) -> bool {
    c != '$' && c != '\'' && c != '\\' && !word_char(c)
}

/// How many leading characters are word characters.
pub open spec fn word_run(r: Seq<char>) -> int
    decreases r.len(),
{
    if r.len() > 0 && word_char(r[0]) {
        1 + word_run(r.skip(1))
    } else {
        0
    }
}

/// How reading one word from a point goes: it reads as a string and stops
/// at a character, or it is refused.
pub enum WordStep {
    Read(Seq<char>, int),
    Refused(Refusal),
}

/// One `@Q` word from character `k` on, with `acc` read so far: adjacent
/// `$'…'`, `'…'`, backslash escapes and unquoted runs, up to the first
/// character that starts none of them.
pub open spec fn word_read(s: Seq<char>, k: int, acc: Seq<char>) -> WordStep
    decreases s.len() - k,
{
    if k < 0 || k >= s.len() {
        WordStep::Read(acc, k)
    } else if s[k] == '$' && k + 1 < s.len() && s[k + 1] == '\'' {
        match ansi_read(s.skip(k + 2), 0, seq![]) {
            Err(e) => WordStep::Refused(e),
            Ok((w, n)) => {
                proof {
                    lemma_ansi_read_bounds(s.skip(k + 2), 0, seq![]);
                }
                word_read(s, k + 2 + n, acc + w)
            },
        }
    } else if s[k] == '\'' {
        match single_read(s.skip(k + 1)) {
            Err(e) => WordStep::Refused(e),
            Ok((w, n)) => {
                proof {
                    lemma_run_len_bounds(s.skip(k + 1), Class::NotQuote);
                }
                word_read(s, k + 1 + n, acc + w)
            },
        }
    } else if s[k] == '\\' && k + 1 < s.len() {
        word_read(s, k + 2, acc.push(s[k + 1]))
    } else if word_char(s[k]) {
        let n = word_run(s.skip(k));
        proof {
            lemma_word_run_bounds(s.skip(k));
        }
        word_read(s, k + n, acc + s.subrange(k, k + n))
    } else {
        WordStep::Read(acc, k)
    }
}

fn is_word_char(b: u8) -> (r: bool)
    ensures
        r == is_word_byte(b as int),
{
    !(b == 0x20 || b == 0x09 || b == 0x0A || b == 0x0C || b == 0x0D) && b != 0x28 && b != 0x29
        && b != 0x5B && b != 0x5D && b != 0x27 && b != 0x22 && b != 0x24 && b != 0x5C
}

fn is_word_text(c: char) -> (b: bool)
    ensures
        b == word_char(c),
{
    let v = c as u32;
    v >= 0x80 || is_word_char(v as u8)
}

/// Parse one bash `@Q`-produced word: `'...'`, `$'...'`, `\x` escape, or
/// unquoted, adjacent ones making one word. Returns the word and what
/// follows it.
pub fn parse_one_word(input: &str) -> (r: Result<(String, &str), ParseError>)
    requires
        fits(input@),
    ensures
        match word_read(input@, 0, seq![]) {
            WordStep::Read(w, k) => r is Ok && r->Ok_0.0@ == w && r->Ok_0.1@ == input@.skip(k),
            WordStep::Refused(e) => r is Err && r->Err_0@ == e,
        },
{
    let chars = chars_of(input);
    let ghost s = input@;
    let mut result = String::new();
    let mut k: usize = 0;
    loop
        invariant
            chars@ == s,
            s == input@,
            fits(s),
            k <= chars.len(),
            word_read(s, 0, seq![]) == word_read(s, k as int, result@),
        ensures
            k <= chars.len(),
            word_read(s, 0, seq![]) == WordStep::Read(result@, k as int),
        decreases chars.len() - k,
    {
        if k >= chars.len() {
            break;
        }
        let c = chars[k];
        if c == '$' && k + 1 < chars.len() && chars[k + 1] == '\'' {
            proof {
                lemma_ansi_read_bounds(s.skip(k + 2), 0, seq![]);
            }
            match ansi_in(&chars, k + 2) {
                Ok((text, next)) => {
                    result.append(text.as_str());
                    k = next;
                },
                Err(e) => {
                    return Err(e);
                },
            }
        } else if c == '\'' {
            proof {
                lemma_run_len_bounds(s.skip(k + 1), Class::NotQuote);
            }
            match single_in(&chars, k + 1) {
                Ok((text, next)) => {
                    result.append(text.as_str());
                    k = next;
                },
                Err(e) => {
                    return Err(e);
                },
            }
        } else if c == '\\' && k + 1 < chars.len() {
            push_char(&mut result, chars[k + 1]);
            k = k + 2;
        } else if is_word_text(c) {
            let start = k;
            let ghost r = s.skip(start as int);
            proof {
                lemma_word_run_bounds(r);
            }
            while k < chars.len() && is_word_text(chars[k])
                invariant
                    start <= k <= chars.len(),
                    chars@ == s,
                    r == s.skip(start as int),
                    k - start <= word_run(r),
                    forall|i: int| 0 <= i < word_run(r) ==> word_char(#[trigger] r[i]),
                    word_run(r) < r.len() ==> !word_char(r[word_run(r)]),
                decreases chars.len() - k,
            {
                assert(r[k - start] == chars@[k as int]);
                k = k + 1;
            }
            proof {
                if k < chars.len() {
                    assert(r[k - start] == chars@[k as int]);
                }
            }
            let run = string_of(&chars, start, k);
            result.append(run.as_str());
        } else {
            break;
        }
    }
    proof {
        assert(chars@.subrange(k as int, chars.len() as int) =~= s.skip(k as int));
    }
    Ok((result, input.substring_char(k, chars.len())))
}

/// How far the unquoted run goes, and what stands in it and after it.
pub proof fn lemma_word_run_bounds(r: Seq<char>)
    ensures
        0 <= word_run(r) <= r.len(),
        r.len() > 0 && word_char(r[0]) ==> word_run(r) > 0,
        forall|i: int| 0 <= i < word_run(r) ==> word_char(#[trigger] r[i]),
        word_run(r) < r.len() ==> !word_char(r[word_run(r)]),
    decreases r.len(),
{
    if r.len() > 0 && word_char(r[0]) {
        lemma_word_run_bounds(r.skip(1));
        assert forall|i: int| 0 <= i < word_run(r) implies word_char(#[trigger] r[i]) by {
            if i > 0 {
                assert(r[i] == r.skip(1)[i - 1]);
            }
        }
        if word_run(r) < r.len() {
            assert(r[word_run(r)] == r.skip(1)[word_run(r.skip(1))]);
        }
    }
}

// ---- words -----------------------------------------------------------------------

/// How reading words goes: they read, or one is refused.
pub enum WordsStep {
    Read(Seq<Seq<char>>),
    Refused(Refusal),
}

/// Words one after another, with whitespace between them, and `acc` read
/// so far. Text where no word starts is trailing content.
pub open spec fn words_read(s: Seq<char>, acc: Seq<Seq<char>>) -> WordsStep
    decreases s.len(),
{
    if s.len() == 0 {
        WordsStep::Read(acc)
    } else {
        match word_read(s, 0, seq![]) {
            WordStep::Refused(e) => WordsStep::Refused(e),
            WordStep::Read(w, k) => if k == 0 {
                WordsStep::Refused(Refusal::TrailingContent(s))
            } else {
                proof {
                    lemma_word_read_len(s, 0, seq![]);
                    lemma_trim_start(s.skip(k));
                }
                words_read(trim_start_spaces(s.skip(k)), acc.push(w))
            },
        }
    }
}

/// Repeatedly parse `@Q`-quoted words from a single line, skipping the
/// whitespace between them. Text where no word starts is refused as
/// trailing content.
pub fn parse_words(input: &str) -> (r: Result<Vec<String>, ParseError>)
    requires
        fits(input@),
    ensures
        match words_read(trim_spaces(input@), seq![]) {
            WordsStep::Read(ws) => r is Ok && views(r->Ok_0@) == ws,
            WordsStep::Refused(e) => r is Err && r->Err_0@ == e,
        },
{
    let mut out: Vec<String> = Vec::new();
    let mut rest = trim(input);
    proof {
        lemma_trim_is_subrange(input@);
        let (a, b) = crate::parser::trim_bounds(input@);
        lemma_fits_subrange(input@, a, b);
        assert(views(out@) =~= Seq::<Seq<char>>::empty());
    }
    while !rest.is_empty()
        invariant
            fits(rest@),
            words_read(trim_spaces(input@), seq![]) == words_read(rest@, views(out@)),
        decreases rest@.len(),
    {
        let ghost before = rest@;
        let (word, remaining) = match parse_one_word(rest) {
            Ok(p) => p,
            Err(e) => {
                return Err(e);
            },
        };
        proof {
            lemma_word_read_len(before, 0, seq![]);
        }
        let ghost k = match word_read(before, 0, seq![]) {
            WordStep::Read(_, k) => k,
            _ => 0,
        };
        if remaining.unicode_len() == rest.unicode_len() {
            assert(k == 0);
            return Err(ParseError::TrailingContent(owned(rest)));
        }
        proof {
            lemma_fits_subrange(before, k, before.len() as int);
            assert(before.subrange(k, before.len() as int) =~= remaining@);
            lemma_trim_start(remaining@);
            lemma_views_push(out@, word);
        }
        out.push(word);
        rest = trim_start(remaining);
        proof {
            let t = remaining@;
            lemma_fits_subrange(t, t.len() - rest@.len(), t.len() as int);
            assert(t.subrange(t.len() - rest@.len(), t.len() as int) =~= rest@);
        }
    }
    Ok(out)
}

// ---- encoding ------------------------------------------------------------------

/// A character that `'…'` cannot hold as itself.
pub open spec fn escapes(c: char) -> bool {
    c == '\'' || c == '\\' || (c as u32) < 0x20 || c == '\x7f'
}

/// Whether a string needs `$'…'`.
pub open spec fn needs_escape(s: Seq<char>) -> bool {
    exists|i: int| 0 <= i < s.len() && escapes(#[trigger] s[i])
}

/// A hex digit, lower case.
pub open spec fn hex_digit_char(d: int) -> char {
    if d < 10 {
        ((d + 48) as u8) as char
    } else {
        ((d + 87) as u8) as char
    }
}

/// How one character is written inside `$'…'`.
pub open spec fn encode_char(c: char) -> Seq<char> {
    if c == '\'' {
        seq!['\\', '\'']
    } else if c == '\\' {
        seq!['\\', '\\']
    } else if c == '\n' {
        seq!['\\', 'n']
    } else if c == '\r' {
        seq!['\\', 'r']
    } else if c == '\t' {
        seq!['\\', 't']
    } else if c == '\x07' {
        seq!['\\', 'a']
    } else if c == '\x08' {
        seq!['\\', 'b']
    } else if c == '\x1B' {
        seq!['\\', 'e']
    } else if c == '\x0C' {
        seq!['\\', 'f']
    } else if c == '\x0B' {
        seq!['\\', 'v']
    } else if (c as u32) < 0x20 || c == '\x7f' {
        seq!['\\', 'x', hex_digit_char((c as u32 / 16) as int), hex_digit_char((c as u32 % 16) as int)]
    } else {
        seq![c]
    }
}

/// The body of `$'…'` for a string.
pub open spec fn encode_body(s: Seq<char>) -> Seq<char>
    decreases s.len(),
{
    if s.len() == 0 {
        seq![]
    } else {
        encode_body(s.drop_last()) + encode_char(s.last())
    }
}

/// A string as one bash word: `'…'` where that can hold it, `$'…'` otherwise.
pub open spec fn encoded(s: Seq<char>) -> Seq<char> {
    if s.len() == 0 {
        seq!['\'', '\'']
    } else if !needs_escape(s) {
        seq!['\''] + s + seq!['\'']
    } else {
        seq!['$', '\''] + encode_body(s) + seq!['\'']
    }
}

fn needs_ansi_c(chars: &Vec<char>) -> (b: bool)
    ensures
        b == needs_escape(chars@),
{
    let mut i: usize = 0;
    while i < chars.len()
        invariant
            i <= chars.len(),
            forall|j: int| 0 <= j < i ==> !escapes(#[trigger] chars@[j]),
        decreases chars.len() - i,
    {
        let c = chars[i];
        if c == '\'' || c == '\\' || (c as u32) < 0x20 || c == '\x7f' {
            assert(escapes(chars@[i as int]));
            return true;
        }
        i = i + 1;
    }
    false
}

fn hex_digit_of(d: u32) -> (c: char)
    requires
        d < 16,
    ensures
        c == hex_digit_char(d as int),
{
    if d < 10 {
        ((d + 48) as u8) as char
    } else {
        ((d + 87) as u8) as char
    }
}

/// `$'…'` with the full escape set.
fn ansi_c_encode(chars: &Vec<char>) -> (out: String)
    ensures
        out@ == seq!['$', '\''] + encode_body(chars@) + seq!['\''],
{
    let mut out = String::new();
    push_char(&mut out, '$');
    push_char(&mut out, '\'');
    let mut i: usize = 0;
    while i < chars.len()
        invariant
            i <= chars.len(),
            out@ == seq!['$', '\''] + encode_body(chars@.take(i as int)),
        decreases chars.len() - i,
    {
        let c = chars[i];
        let ghost before = out@;
        if c == '\'' {
            push_char(&mut out, '\\');
            push_char(&mut out, '\'');
        } else if c == '\\' {
            push_char(&mut out, '\\');
            push_char(&mut out, '\\');
        } else if c == '\n' {
            push_char(&mut out, '\\');
            push_char(&mut out, 'n');
        } else if c == '\r' {
            push_char(&mut out, '\\');
            push_char(&mut out, 'r');
        } else if c == '\t' {
            push_char(&mut out, '\\');
            push_char(&mut out, 't');
        } else if c == '\x07' {
            push_char(&mut out, '\\');
            push_char(&mut out, 'a');
        } else if c == '\x08' {
            push_char(&mut out, '\\');
            push_char(&mut out, 'b');
        } else if c == '\x1B' {
            push_char(&mut out, '\\');
            push_char(&mut out, 'e');
        } else if c == '\x0C' {
            push_char(&mut out, '\\');
            push_char(&mut out, 'f');
        } else if c == '\x0B' {
            push_char(&mut out, '\\');
            push_char(&mut out, 'v');
        } else if (c as u32) < 0x20 || c == '\x7f' {
            let v = c as u32;
            push_char(&mut out, '\\');
            push_char(&mut out, 'x');
            push_char(&mut out, hex_digit_of(v / 16));
            push_char(&mut out, hex_digit_of(v % 16));
        } else {
            push_char(&mut out, c);
        }
        proof {
            assert(chars@.take(i + 1).drop_last() =~= chars@.take(i as int));
            assert(chars@.take(i + 1).last() == c);
            assert(out@ =~= before + encode_char(c));
        }
        i = i + 1;
    }
    push_char(&mut out, '\'');
    proof {
        assert(chars@.take(chars.len() as int) =~= chars@);
    }
    out
}

/// Encode a string as one bash word: `'...'` for simple strings, `$'...'`
/// with ANSI-C escaping where it holds a quote, a backslash or a control
/// character. The inverse of [`parse_one_word`].
pub fn encode_scalar(s: &str) -> (out: String)
    ensures
        out@ == encoded(s@),
{
    let chars = chars_of(s);
    if chars.len() == 0 {
        proof {
            reveal_strlit("''");
        }
        return owned("''");
    }
    if !needs_ansi_c(&chars) {
        let mut out = String::new();
        push_char(&mut out, '\'');
        out.append(s);
        push_char(&mut out, '\'');
        return out;
    }
    ansi_c_encode(&chars)
}

// ---- a word is no longer than its text ----------------------------------------------

proof fn lemma_escape_read_len(r: Seq<char>, k: int, acc: Seq<char>)
    requires
        0 <= k,
        k + 1 < r.len(),
    ensures
        match escape_read(r, k, acc) {
            Ok((w, j)) => w.len() <= acc.len() + (j - k),
            Err(_) => true,
        },
{
    lemma_escape_read_bounds(r, k, acc);
}

proof fn lemma_ansi_read_len(r: Seq<char>, k: int, acc: Seq<char>)
    requires
        0 <= k,
    ensures
        match ansi_read(r, k, acc) {
            Ok((w, n)) => w.len() <= acc.len() + (n - k),
            Err(_) => true,
        },
    decreases r.len() - k,
{
    if k < r.len() && r[k] != '\'' {
        if r[k] == '\\' {
            if k + 1 < r.len() {
                lemma_escape_read_len(r, k, acc);
                lemma_escape_read_bounds(r, k, acc);
                match escape_read(r, k, acc) {
                    Ok((next, j)) => {
                        if k < j <= r.len() {
                            lemma_ansi_read_len(r, j, next);
                        }
                    },
                    Err(_) => {},
                }
            }
        } else {
            lemma_ansi_read_len(r, k + 1, acc.push(r[k]));
        }
    }
}

/// A word read from a text takes at least as many characters as it holds,
/// and stops within the text.
pub proof fn lemma_word_read_len(s: Seq<char>, k: int, acc: Seq<char>)
    requires
        0 <= k <= s.len(),
    ensures
        match word_read(s, k, acc) {
            WordStep::Read(w, j) => k <= j <= s.len() && w.len() <= acc.len() + (j - k),
            _ => true,
        },
    decreases s.len() - k,
{
    if k < s.len() {
        if s[k] == '$' && k + 1 < s.len() && s[k + 1] == '\'' {
            lemma_ansi_read_len(s.skip(k + 2), 0, seq![]);
            lemma_ansi_read_bounds(s.skip(k + 2), 0, seq![]);
            match ansi_read(s.skip(k + 2), 0, seq![]) {
                Ok((w, n)) => {
                    lemma_word_read_len(s, k + 2 + n, acc + w);
                },
                Err(_) => {},
            }
        } else if s[k] == '\'' {
            lemma_run_len_bounds(s.skip(k + 1), Class::NotQuote);
            match single_read(s.skip(k + 1)) {
                Ok((w, n)) => {
                    lemma_word_read_len(s, k + 1 + n, acc + w);
                },
                Err(_) => {},
            }
        } else if s[k] == '\\' && k + 1 < s.len() {
            lemma_word_read_len(s, k + 2, acc.push(s[k + 1]));
        } else if word_char(s[k]) {
            let n = word_run(s.skip(k));
            lemma_word_run_bounds(s.skip(k));
            lemma_word_read_len(s, k + n, acc + s.subrange(k, k + n));
        }
    }
}

// ---- the word level reads back what it writes ---------------------------------------

/// A lower-case hex digit reads back as its value.
proof fn lemma_hex_digit(d: int)
    requires
        0 <= d < 16,
    ensures
        is_hex(hex_digit_char(d)),
        crate::grammar::hex_digit(hex_digit_char(d)) == d,
{
    if d < 10 {
        assert(hex_digit_char(d) as int == d + 48);
    } else {
        assert(hex_digit_char(d) as int == d + 87);
    }
}

/// One character's escape inside `$'…'` reads back as the character.
proof fn lemma_encode_char_reads(r: Seq<char>, m: int, acc: Seq<char>, c: char)
    requires
        0 <= m,
        m + encode_char(c).len() < r.len(),
        r.subrange(m, m + encode_char(c).len()) == encode_char(c),
    ensures
        ansi_read(r, m, acc) == ansi_read(r, m + encode_char(c).len(), acc.push(c)),
{
    let e = encode_char(c);
    assert(r[m] == e[0]);
    if e.len() >= 2 {
        assert(r[m + 1] == e[1]);
    }
    if (c as u32) < 0x20 || c == '\x7f' {
        if !(c == '\n' || c == '\r' || c == '\t' || c == '\x07' || c == '\x08' || c == '\x1B'
            || c == '\x0C' || c == '\x0B') {
            let v = c as u32;
            let rest = r.skip(m + 2);
            lemma_hex_digit((v / 16) as int);
            lemma_hex_digit((v % 16) as int);
            assert(rest[0] == e[2]);
            assert(rest[1] == e[3]);
            lemma_bounded_run_is(rest, Class::Hex, 2, 2);
            let d = rest.take(2);
            assert(d =~= seq![e[2], e[3]]);
            assert(d.drop_last() =~= seq![e[2]]);
            assert(seq![e[2]].drop_last() =~= Seq::<char>::empty());
            assert(hex_value(Seq::<char>::empty()) == 0);
            assert(hex_value(seq![e[2]]) == crate::grammar::hex_digit(e[2]));
            assert(hex_value(d) == hex_value(d.drop_last()) * 16 + crate::grammar::hex_digit(d.last()));
            assert(hex_value(d) == (v / 16) as int * 16 + (v % 16) as int);
            assert(d == rest.take(2));
            assert(hex_value(rest.take(2)) == v);
            assert(byte_char(v as int) == c) by {
                assert((v as u8) as char == c);
            }
        }
    }
}

/// The whole of `encode_body(s)` reads back as `s`.
proof fn lemma_encode_body_reads(r: Seq<char>, k: int, acc: Seq<char>, s: Seq<char>)
    requires
        0 <= k,
        k + encode_body(s).len() < r.len(),
        r.subrange(k, k + encode_body(s).len()) == encode_body(s),
    ensures
        ansi_read(r, k, acc) == ansi_read(r, k + encode_body(s).len(), acc + s),
    decreases s.len(),
{
    if s.len() == 0 {
        assert(acc + s =~= acc);
    } else {
        let p = s.drop_last();
        let c = s.last();
        let bp = encode_body(p);
        let ec = encode_char(c);
        assert(encode_body(s) == bp + ec);
        assert(r.subrange(k, k + bp.len()) =~= bp) by {
            assert(r.subrange(k, k + bp.len()) =~= r.subrange(k, k + encode_body(s).len()).take(
                bp.len() as int,
            ));
        }
        lemma_encode_body_reads(r, k, acc, p);
        let m = k + bp.len();
        assert(r.subrange(m, m + ec.len()) =~= ec) by {
            assert(r.subrange(m, m + ec.len()) =~= r.subrange(k, k + encode_body(s).len()).skip(
                bp.len() as int,
            ));
        }
        lemma_encode_char_reads(r, m, acc + p, c);
        assert((acc + p).push(c) =~= acc + s);
    }
}

/// An encoded word reads back as its string wherever it ends the text or a
/// character that ends a word follows it.
pub proof fn lemma_encoded_word_reads(s: Seq<char>, t: Seq<char>)
    requires
        t.len() == 0 || stops_word(t[0]),
    ensures
        word_read(encoded(s) + t, 0, seq![]) == WordStep::Read(s, encoded(s).len() as int),
{
    let e = encoded(s);
    let x = e + t;
    let n = e.len() as int;
    assert(Seq::<char>::empty() + s =~= s);
    if t.len() > 0 {
        assert(x[n] == t[0]);
    }
    assert(word_read(x, n, s) == WordStep::Read(s, n));
    if s.len() == 0 {
        let body = x.skip(1);
        assert(body[0] == '\'');
        crate::grammar::lemma_run_len_is(body, Class::NotQuote, 0);
        assert(body.take(0) =~= s);
        assert(x[0] == '\'');
    } else if !needs_escape(s) {
        let body = x.skip(1);
        assert forall|i: int| 0 <= i < s.len() implies in_class(Class::NotQuote, #[trigger] body[i]) by {
            assert(body[i] == s[i]);
            assert(!escapes(s[i]));
        }
        assert(body[s.len() as int] == '\'');
        crate::grammar::lemma_run_len_is(body, Class::NotQuote, s.len() as int);
        assert(body.take(s.len() as int) =~= s);
        assert(x[0] == '\'');
    } else {
        let r = x.skip(2);
        let b = encode_body(s);
        assert(r.subrange(0, b.len() as int) =~= b);
        lemma_encode_body_reads(r, 0, seq![], s);
        assert(r[b.len() as int] == '\'');
        assert(ansi_read(r, 0, seq![]) == Ok::<(Seq<char>, int), Refusal>((s, b.len() + 1int)));
        assert(x[0] == '$' && x[1] == '\'');
        assert(n == 2 + b.len() + 1);
    }
}

/// `parse_one_word(encode_scalar(s))` gives `s` back, with nothing left over,
/// for every string.
pub proof fn law_encode_round_trip(s: Seq<char>)
    ensures
        word_read(encoded(s), 0, seq![]) == WordStep::Read(s, encoded(s).len() as int),
{
    lemma_encoded_word_reads(s, seq![]);
    assert(encoded(s) + Seq::<char>::empty() =~= encoded(s));
}

/// `parse_ansi_c_body` reads the body of `$'…'` as the escaper writes it
/// back as the string it was written for, up to and with the closing quote,
/// for every string.
pub proof fn law_ansi_body_round_trip(s: Seq<char>)
    ensures
        ansi_read(encode_body(s).push('\''), 0, seq![]) == Ok::<(Seq<char>, int), Refusal>(
            (s, encode_body(s).len() + 1int),
        ),
{
    let b = encode_body(s);
    let r = b.push('\'');
    assert(r.subrange(0, b.len() as int) =~= b);
    lemma_encode_body_reads(r, 0, seq![], s);
    assert(Seq::<char>::empty() + s =~= s);
    assert(r[b.len() as int] == '\'');
}

} // verus!
