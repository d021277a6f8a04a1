//! The forms bash prints a value in, and nothing else.
//!
//! Each is strict: it accepts what bash itself writes and refuses the rest.
//! Where a word begins and ends is [`quoting`](crate::quoting)'s; this is
//! what surrounds one.
//!
//! | | |
//! |---|---|
//! | scalar | one word |
//! | q_words | words separated by exactly one space |
//! | array | `('a' 'b c')` — q_words in parentheses, a subscript `[n]=` dropped |
//! | indexed | `([0]=… [5]=…)` — subscripts are data, and sparse |
//! | assoc | `([k]=… )` — the key is a word too |

use vstd::prelude::*;

use crate::error::ParseError;
use crate::grammar::{
    blank_run, decimal_value, digit_run, expected_msg, has_prefix, in_class, is_digit,
    lemma_run_len_bounds, lemma_run_len_is, lemma_word_bounds, shift, whole, word_scan, Class,
    Scan,
};
use crate::index_map::{
    assoc_entries, distinct_keys, indexed_entries, insert_all, insert_assoc, insert_indexed,
    new_assoc, new_indexed,
};
use crate::quoting::{owned, parse_with, string_scan, Cursor};
use crate::text::{
    chars_of, debug_quoted, debug_str, fits, lemma_byte_off_mono, lemma_byte_off_prefix,
    lemma_fits_subrange,
};
use indexmap::IndexMap;

verus! {

/// Where a value ends. `)` closes a compound, so it stops a word inside one.
pub open spec fn value_stops() -> Seq<char> {
    seq![' ', '\t', '\n', ')']
}

/// Where a subscript ends, inside its brackets.
pub open spec fn key_stops() -> Seq<char> {
    seq![']']
}

pub(crate) fn value_stop_chars() -> (s: [char; 4])
    ensures
        s@ == value_stops(),
{
    let s = [' ', '\t', '\n', ')'];
    assert(s@ =~= value_stops());
    s
}

pub(crate) fn key_stop_chars() -> (s: [char; 1])
    ensures
        s@ == key_stops(),
{
    let s = [']'];
    assert(s@ =~= key_stops());
    s
}

/// The views of a sequence of strings.
pub open spec fn views(v: Seq<String>) -> Seq<Seq<char>> {
    Seq::new(v.len(), |i: int| v[i]@)
}

pub proof fn lemma_views_push(v: Seq<String>, s: String)
    ensures
        views(v.push(s)) == views(v).push(s@),
{
    assert(views(v.push(s)) =~= views(v).push(s@));
}

/// What a whole-text reader returning a string did, against the grammar.
pub open spec fn string_outcome(
    r: Result<String, ParseError>,
    s: Result<Seq<char>, (int, Seq<char>)>,
    text: Seq<char>,
) -> bool {
    match s {
        Ok(v) => r is Ok && r->Ok_0@ == v,
        Err((k, m)) => r is Err && r->Err_0.reports(text, k, m),
    }
}

/// What a whole-text reader returning words did, against the grammar.
pub open spec fn words_outcome(
    r: Result<Vec<String>, ParseError>,
    s: Result<Seq<Seq<char>>, (int, Seq<char>)>,
    text: Seq<char>,
) -> bool {
    match s {
        Ok(v) => r is Ok && views(r->Ok_0@) == v,
        Err((k, m)) => r is Err && r->Err_0.reports(text, k, m),
    }
}

/// Bash writes no trailing newline inside a value; one appended by a `$( )`
/// or a file read is not part of it.
pub open spec fn trim_newlines(s: Seq<char>) -> Seq<char>
    decreases s.len(),
{
    if s.len() > 0 && s.last() == '\n' {
        trim_newlines(s.drop_last())
    } else {
        s
    }
}

/// What `char::is_whitespace` accepts: Unicode's `White_Space`.
pub open spec fn is_space(c: char) -> bool {
    ||| ('\u{9}' <= c && c <= '\u{D}')
    ||| c == ' '
    ||| c == '\u{85}'
    ||| c == '\u{A0}'
    ||| c == '\u{1680}'
    ||| ('\u{2000}' <= c && c <= '\u{200A}')
    ||| c == '\u{2028}'
    ||| c == '\u{2029}'
    ||| c == '\u{202F}'
    ||| c == '\u{205F}'
    ||| c == '\u{3000}'
}

pub open spec fn trim_start_spaces(s: Seq<char>) -> Seq<char>
    decreases s.len(),
{
    if s.len() > 0 && is_space(s[0]) {
        trim_start_spaces(s.drop_first())
    } else {
        s
    }
}

pub open spec fn trim_end_spaces(s: Seq<char>) -> Seq<char>
    decreases s.len(),
{
    if s.len() > 0 && is_space(s.last()) {
        trim_end_spaces(s.drop_last())
    } else {
        s
    }
}

/// `str::trim_start`: whitespace off the front.
pub(crate) fn trim_start(text: &str) -> (t: &str)
    ensures
        t@ == trim_start_spaces(text@),
{
    let chars = chars_of(text);
    let mut start: usize = 0;
    proof {
        assert(chars@.skip(0) =~= chars@);
    }
    while start < chars.len() && is_space_char(chars[start])
        invariant
            start <= chars.len(),
            chars@ == text@,
            trim_start_spaces(chars@.skip(start as int)) == trim_start_spaces(chars@),
        decreases chars.len() - start,
    {
        proof {
            assert(chars@.skip(start as int).drop_first() =~= chars@.skip(start + 1));
        }
        start = start + 1;
    }
    proof {
        assert(trim_start_spaces(chars@.skip(start as int)) == chars@.skip(start as int));
        assert(chars@.subrange(start as int, chars.len() as int) =~= chars@.skip(start as int));
    }
    text.substring_char(start, chars.len())
}

/// `str::trim`: whitespace off both ends.
pub open spec fn trim_spaces(s: Seq<char>) -> Seq<char> {
    trim_end_spaces(trim_start_spaces(s))
}

pub open spec fn array_literal_msg() -> Seq<char> {
    "expected a (\u{2026}) array literal"@
}

/// The body of a `(…)` array literal, or the refusal at its start.
pub open spec fn inside_spec(text: Seq<char>) -> Result<Seq<char>, (int, Seq<char>)> {
    let t = trim_spaces(text);
    if t.len() >= 2 && t[0] == '(' && t.last() == ')' {
        Ok(t.subrange(1, t.len() - 1))
    } else {
        Err((0, array_literal_msg()))
    }
}

/// One element of a list of words: a word, or, where subscripts are read,
/// a subscript `[n]=` and then a word, the subscript read and dropped.
pub open spec fn element_scan(r: Seq<char>, subscripts: bool) -> Scan<Seq<char>> {
    if subscripts && has_prefix(r, seq!['[']) {
        match bracket_scan(r) {
            Err(e) => Err(e),
            Ok((_, k)) => if !has_prefix(r.skip(k), seq!['=']) {
                Err((k, expected_msg(seq!['='])))
            } else {
                shift(word_scan(r.skip(k + 1), value_stops()), k + 1)
            },
        }
    } else {
        word_scan(r, value_stops())
    }
}

/// An element takes at least one character and no more than there are,
/// and holds no more characters than it takes.
pub proof fn lemma_element_bounds(r: Seq<char>, subscripts: bool)
    ensures
        match element_scan(r, subscripts) {
            Ok((w, k)) => 0 < k <= r.len() && w.len() <= k,
            Err((k, _)) => 0 <= k <= r.len(),
        },
{
    lemma_word_bounds(r, value_stops());
    if subscripts && has_prefix(r, seq!['[']) {
        lemma_run_len_bounds(r.skip(1), Class::Digit);
        match bracket_scan(r) {
            Ok((_, k)) => {
                if has_prefix(r.skip(k), seq!['=']) {
                    lemma_word_bounds(r.skip(k + 1), value_stops());
                }
            },
            Err(_) => {},
        }
    }
}

/// Elements separated by exactly one space, after a first one.
pub open spec fn q_words_more(r: Seq<char>, acc: Seq<Seq<char>>, subscripts: bool) -> Scan<
    Seq<Seq<char>>,
>
    decreases r.len(),
{
    if r.len() == 0 {
        Ok((acc, 0))
    } else if !has_prefix(r, seq![' ']) {
        Err((0, expected_msg(seq![' '])))
    } else {
        match element_scan(r.skip(1), subscripts) {
            Err((k, m)) => Err((k + 1, m)),
            Ok((w, k)) => if 0 < k && k <= r.len() - 1 {
                shift(q_words_more(r.skip(1 + k), acc.push(w), subscripts), 1 + k)
            } else {
                Ok((acc.push(w), 1 + k))
            },
        }
    }
}

/// Elements separated by exactly one space: bash writes no more, so more is
/// not its output.
pub open spec fn q_words_scan(r: Seq<char>, subscripts: bool) -> Scan<Seq<Seq<char>>> {
    if r.len() == 0 {
        Ok((seq![], 0))
    } else {
        match element_scan(r, subscripts) {
            Err(e) => Err(e),
            Ok((w, k)) => if 0 < k && k <= r.len() {
                shift(q_words_more(r.skip(k), seq![w], subscripts), k)
            } else {
                Ok((seq![w], k))
            },
        }
    }
}

/// What `parse_scalar` gives: one word over the whole text.
pub open spec fn scalar_spec(text: Seq<char>) -> Result<Seq<char>, (int, Seq<char>)> {
    let t = trim_newlines(text);
    whole(word_scan(t, value_stops()), t.len() as int)
}

/// What `parse_q_words` gives.
pub open spec fn q_words_spec(text: Seq<char>) -> Result<Seq<Seq<char>>, (int, Seq<char>)> {
    let t = trim_newlines(text);
    whole(q_words_scan(t, false), t.len() as int)
}

proof fn lemma_trim_newlines(s: Seq<char>)
    ensures
        trim_newlines(s).len() <= s.len(),
        trim_newlines(s) == s.take(trim_newlines(s).len() as int),
    decreases s.len(),
{
    if s.len() > 0 && s.last() == '\n' {
        lemma_trim_newlines(s.drop_last());
        assert(s.drop_last().take(trim_newlines(s).len() as int) =~= s.take(
            trim_newlines(s).len() as int,
        ));
    } else {
        assert(s.take(s.len() as int) =~= s);
    }
}

/// Bash writes no trailing newline inside a value; one appended by a `$( )`
/// or a file read is not part of it.
fn trimmed(text: &str) -> (t: &str)
    ensures
        t@ == trim_newlines(text@),
{
    let chars = chars_of(text);
    let mut end = chars.len();
    proof {
        assert(chars@.take(end as int) =~= chars@);
    }
    while end > 0 && chars[end - 1] == '\n'
        invariant
            end <= chars.len(),
            chars@ == text@,
            trim_newlines(chars@.take(end as int)) == trim_newlines(chars@),
        decreases end,
    {
        proof {
            assert(chars@.take(end as int).drop_last() =~= chars@.take(end - 1));
        }
        end = end - 1;
    }
    text.substring_char(0, end)
}

fn is_space_char(c: char) -> (b: bool)
    ensures
        b == is_space(c),
{
    ('\u{9}' <= c && c <= '\u{D}') || c == ' ' || c == '\u{85}' || c == '\u{A0}' || c == '\u{1680}'
        || ('\u{2000}' <= c && c <= '\u{200A}') || c == '\u{2028}' || c == '\u{2029}' || c
        == '\u{202F}' || c == '\u{205F}' || c == '\u{3000}'
}

/// `str::trim`: whitespace off both ends.
pub(crate) fn trim(text: &str) -> (t: &str)
    ensures
        t@ == trim_spaces(text@),
{
    let chars = chars_of(text);
    let mut start: usize = 0;
    proof {
        assert(chars@.skip(0) =~= chars@);
    }
    while start < chars.len() && is_space_char(chars[start])
        invariant
            start <= chars.len(),
            chars@ == text@,
            trim_start_spaces(chars@.skip(start as int)) == trim_start_spaces(chars@),
        decreases chars.len() - start,
    {
        proof {
            assert(chars@.skip(start as int).drop_first() =~= chars@.skip(start + 1));
        }
        start = start + 1;
    }
    let ghost head = chars@.skip(start as int);
    proof {
        assert(trim_start_spaces(head) == head);
    }
    let mut end = chars.len();
    proof {
        assert(chars@.subrange(start as int, end as int) =~= head);
    }
    while end > start && is_space_char(chars[end - 1])
        invariant
            start <= end <= chars.len(),
            chars@ == text@,
            head == chars@.skip(start as int),
            trim_end_spaces(chars@.subrange(start as int, end as int)) == trim_end_spaces(head),
        decreases end,
    {
        proof {
            assert(chars@.subrange(start as int, end as int).drop_last() =~= chars@.subrange(
                start as int,
                end - 1,
            ));
        }
        end = end - 1;
    }
    text.substring_char(start, end)
}


/// Words read after the first are each no longer than a bound the text and
/// the words so far keep to.
proof fn lemma_q_words_more_short(r: Seq<char>, acc: Seq<Seq<char>>, b: int, subscripts: bool)
    requires
        r.len() <= b,
        forall|i: int| 0 <= i < acc.len() ==> #[trigger] acc[i].len() <= b,
    ensures
        match q_words_more(r, acc, subscripts) {
            Ok((ws, _)) => forall|i: int| 0 <= i < ws.len() ==> #[trigger] ws[i].len() <= b,
            Err(_) => true,
        },
    decreases r.len(),
{
    if r.len() > 0 && has_prefix(r, seq![' ']) {
        lemma_element_bounds(r.skip(1), subscripts);
        match element_scan(r.skip(1), subscripts) {
            Ok((w, k)) => {
                let next = acc.push(w);
                assert forall|i: int| 0 <= i < next.len() implies #[trigger] next[i].len() <= b by {
                    if i < acc.len() {
                        assert(next[i] == acc[i]);
                    }
                }
                if 0 < k && k <= r.len() - 1 {
                    lemma_q_words_more_short(r.skip(1 + k), next, b, subscripts);
                }
            },
            Err(_) => {},
        }
    }
}

/// No word read from a text is longer than the text.
pub proof fn lemma_q_words_short(text: Seq<char>)
    ensures
        match q_words_spec(text) {
            Ok(ws) => forall|i: int| 0 <= i < ws.len() ==> #[trigger] ws[i].len() <= text.len(),
            Err(_) => true,
        },
{
    let t = trim_newlines(text);
    lemma_trim_newlines(text);
    if t.len() > 0 {
        lemma_element_bounds(t, false);
        match element_scan(t, false) {
            Ok((w, k)) => {
                if 0 < k && k <= t.len() {
                    lemma_q_words_more_short(t.skip(k), seq![w], text.len() as int, false);
                }
            },
            Err(_) => {},
        }
    }
}

proof fn lemma_trim_fits(s: Seq<char>)
    requires
        fits(s),
    ensures
        fits(trim_spaces(s)),
{
    lemma_trim_is_subrange(s);
    let (a, b) = trim_bounds(s);
    lemma_fits_subrange(s, a, b);
}

/// Where the trimmed text sits in the untrimmed one.
pub open spec fn trim_bounds(s: Seq<char>) -> (int, int) {
    let head = trim_start_spaces(s);
    let a = s.len() - head.len();
    (a, a + trim_end_spaces(head).len())
}

pub proof fn lemma_trim_start(s: Seq<char>)
    ensures
        trim_start_spaces(s).len() <= s.len(),
        trim_start_spaces(s) == s.skip(s.len() - trim_start_spaces(s).len()),
    decreases s.len(),
{
    if s.len() > 0 && is_space(s[0]) {
        lemma_trim_start(s.drop_first());
        assert(s.drop_first().skip(s.drop_first().len() - trim_start_spaces(s).len()) =~= s.skip(
            s.len() - trim_start_spaces(s).len(),
        ));
    } else {
        assert(s.skip(0) =~= s);
    }
}

proof fn lemma_trim_end(s: Seq<char>)
    ensures
        trim_end_spaces(s).len() <= s.len(),
        trim_end_spaces(s) == s.take(trim_end_spaces(s).len() as int),
    decreases s.len(),
{
    if s.len() > 0 && is_space(s.last()) {
        lemma_trim_end(s.drop_last());
        assert(s.drop_last().take(trim_end_spaces(s).len() as int) =~= s.take(
            trim_end_spaces(s).len() as int,
        ));
    } else {
        assert(s.take(s.len() as int) =~= s);
    }
}

pub proof fn lemma_trim_is_subrange(s: Seq<char>)
    ensures
        0 <= trim_bounds(s).0 <= trim_bounds(s).1 <= s.len(),
        trim_spaces(s) == s.subrange(trim_bounds(s).0, trim_bounds(s).1),
{
    lemma_trim_start(s);
    let head = trim_start_spaces(s);
    lemma_trim_end(head);
    let (a, b) = trim_bounds(s);
    assert(trim_spaces(s) =~= s.subrange(a, b));
}

fn scalar_word(c: &mut Cursor<'_>) -> (r: Result<String, ParseError>)
    ensures
        final(c).text() == old(c).text(),
        string_scan(r, word_scan(old(c).remaining(), value_stops()), old(c).text(), old(c).pos(), final(c).pos()),
{
    c.word(&value_stop_chars())
}

/// One word, as `${x@Q}` writes it: `'foo'` → `foo`.
pub fn parse_scalar(text: &str) -> (r: Result<String, ParseError>)
    requires
        fits(text@),
    ensures
        string_outcome(r, scalar_spec(text@), trim_newlines(text@)),
{
    let t = trimmed(text);
    proof {
        lemma_trim_newlines(text@);
        lemma_fits_subrange(text@, 0, t@.len() as int);
        assert(text@.subrange(0, t@.len() as int) =~= t@);
    }
    let r = parse_with(t, scalar_word);
    proof {
        assert(t@.skip(0) =~= t@);
    }
    r
}

/// One element: a word, after a subscript `[n]=` where subscripts are read
/// and one stands.
fn element(c: &mut Cursor<'_>, subscripts: bool) -> (r: Result<String, ParseError>)
    ensures
        final(c).text() == old(c).text(),
        string_scan(r, element_scan(old(c).remaining(), subscripts), old(c).text(), old(c).pos(), final(c).pos()),
{
    let ghost r0 = c.remaining();
    let ghost p0 = c.pos();
    proof {
        reveal_strlit("[");
        reveal_strlit("=");
        assert("["@ =~= seq!['[']);
        assert("="@ =~= seq!['=']);
    }
    if subscripts && c.starts_with("[") {
        match bracket_index(c) {
            Ok(_) => {},
            Err(e) => return Err(e),
        }
        let ghost k = c.pos() - p0;
        proof {
            assert(r0.skip(k) =~= c.remaining());
        }
        match c.lit("=") {
            Ok(()) => {},
            Err(e) => return Err(e),
        }
        proof {
            assert(r0.skip(k + 1) =~= c.remaining());
        }
        c.word(&value_stop_chars())
    } else {
        c.word(&value_stop_chars())
    }
}

/// Exactly one space between elements: bash writes no more, so more is not
/// its output.
fn q_words_in(c: &mut Cursor<'_>, subscripts: bool) -> (r: Result<Vec<String>, ParseError>)
    ensures
        final(c).text() == old(c).text(),
        match q_words_scan(old(c).remaining(), subscripts) {
            Ok((v, k)) => r is Ok && views(r->Ok_0@) == v && final(c).pos() == old(c).pos() + k,
            Err((k, m)) => r is Err && r->Err_0.reports(old(c).text(), old(c).pos() + k, m)
                && final(c).pos() == old(c).pos() + k,
        },
{
    let ghost text = c.text();
    let ghost p0 = c.pos();
    let ghost r0 = c.remaining();
    let mut out: Vec<String> = Vec::new();
    if c.at_end() {
        proof {
            assert(views(out@) =~= seq![]);
        }
        return Ok(out);
    }
    proof {
        lemma_element_bounds(r0, subscripts);
    }
    let first = match element(c, subscripts) {
        Ok(w) => w,
        Err(e) => return Err(e),
    };
    out.push(first);
    let ghost p1 = c.pos();
    proof {
        assert(r0.skip(p1 - p0) =~= c.remaining());
        assert(views(out@) =~= seq![first@]);
    }
    while !c.at_end()
        invariant
            c.text() == text,
            text == old(c).text(),
            p0 == old(c).pos(),
            r0 == old(c).remaining(),
            c.in_bounds(),
            p0 < c.pos(),
            r0 == text.skip(p0),
            q_words_scan(r0, subscripts) == shift(
                q_words_more(c.remaining(), views(out@), subscripts),
                c.pos() - p0,
            ),
        decreases c.text().len() - c.pos(),
    {
        let ghost rem = c.remaining();
        let ghost before = c.pos();
        proof {
            lemma_element_bounds(rem.skip(1), subscripts);
            reveal_strlit(" ");
            assert(" "@ =~= seq![' ']);
        }
        match c.lit(" ") {
            Ok(()) => {},
            Err(e) => {
                proof {
                    assert(q_words_more(rem, views(out@), subscripts) == Err::<(Seq<Seq<char>>, int), (int, Seq<char>)>((0, expected_msg(seq![' ']))));
                }
                return Err(e);
            },
        }
        proof {
            assert(rem.skip(1) =~= c.remaining());
        }
        let w = match element(c, subscripts) {
            Ok(w) => w,
            Err(e) => {
                proof {
                    let (k, m) = element_scan(rem.skip(1), subscripts)->Err_0;
                    assert(q_words_more(rem, views(out@), subscripts) == Err::<(Seq<Seq<char>>, int), (int, Seq<char>)>((k + 1, m)));
                }
                return Err(e);
            },
        };
        proof {
            let k = c.pos() - before - 1;
            lemma_views_push(out@, w);
            assert(rem.skip(1 + k) =~= c.remaining());
            assert(q_words_more(rem, views(out@), subscripts) == shift(q_words_more(rem.skip(1 + k), views(out@).push(w@), subscripts), 1 + k));
        }
        out.push(w);
    }
    Ok(out)
}

/// Exactly one space between words: bash writes no more, so more is not its
/// output.
fn q_words(c: &mut Cursor<'_>) -> (r: Result<Vec<String>, ParseError>)
    ensures
        final(c).text() == old(c).text(),
        match q_words_scan(old(c).remaining(), false) {
            Ok((v, k)) => r is Ok && views(r->Ok_0@) == v && final(c).pos() == old(c).pos() + k,
            Err((k, m)) => r is Err && r->Err_0.reports(old(c).text(), old(c).pos() + k, m)
                && final(c).pos() == old(c).pos() + k,
        },
{
    q_words_in(c, false)
}

/// Words separated by exactly one space, as `${x[*]@Q}` writes them:
/// `'a' 'b c'` → `["a", "b c"]`.
pub fn parse_q_words(text: &str) -> (r: Result<Vec<String>, ParseError>)
    requires
        fits(text@),
    ensures
        words_outcome(r, q_words_spec(text@), trim_newlines(text@)),
{
    let t = trimmed(text);
    proof {
        lemma_trim_newlines(text@);
        lemma_fits_subrange(text@, 0, t@.len() as int);
        assert(text@.subrange(0, t@.len() as int) =~= t@);
    }
    let r = parse_with(t, q_words);
    proof {
        assert(t@.skip(0) =~= t@);
    }
    r
}

/// What `parse_array` gives: the body of a `(…)` literal, read as q_words
/// whose elements may each stand after a subscript `[n]=`, which is dropped.
/// A refusal stands where it stopped in the text as given.
pub open spec fn array_spec(text: Seq<char>) -> Result<Seq<Seq<char>>, (int, Seq<char>)> {
    let a = trim_bounds(text).0;
    match inside_spec(text) {
        Err((k, m)) => Err((a + k, m)),
        Ok(body) => {
            let t = trim_newlines(body);
            match whole(q_words_scan(t, true), t.len() as int) {
                Ok(ws) => Ok(ws),
                Err((k, m)) => Err((a + 1 + k, m)),
            }
        },
    }
}

/// One bash array literal as its values: `('a' 'b c')` → `["a", "b c"]`,
/// and `([0]="a b" [1]=$'x\ty')` → `["a b", "x\ty"]`.
///
/// Codec-independent: at one dimension both codecs write the same text.
pub fn parse_array(text: &str) -> (r: Result<Vec<String>, ParseError>)
    requires
        fits(text@),
    ensures
        words_outcome(r, array_spec(text@), text@),
{
    let chars = chars_of(text);
    let ghost s = text@;
    let head = trim_start(text);
    let literal = trim(text);
    proof {
        lemma_trim_start(s);
    }
    let a = chars.len() - head.unicode_len();
    let n = literal.unicode_len();
    proof {
        lemma_trim_is_subrange(s);
        assert(a == trim_bounds(s).0);
        lemma_fits_subrange(s, a as int, a + n);
    }
    if !(n >= 2 && literal.get_char(0) == '(' && literal.get_char(n - 1) == ')') {
        return Err(ParseError::at_char(&chars, a, owned("expected a (\u{2026}) array literal")));
    }
    let body = literal.substring_char(1, n - 1);
    let t = trimmed(body);
    proof {
        lemma_trim_newlines(body@);
    }
    let e = a + 1 + t.unicode_len();
    proof {
        assert(body@ =~= s.subrange(a + 1, a + n - 1));
        assert(t@ =~= s.subrange(a + 1, e as int));
    }
    let prefix = text.substring_char(0, e);
    proof {
        lemma_fits_subrange(s, 0, e as int);
        assert(prefix@.skip(a + 1) =~= t@);
        assert(prefix@ =~= s.take(e as int));
    }
    let mut cursor = Cursor::over_from(prefix, a + 1);
    let parsed = q_words_in(&mut cursor, true);
    let done = cursor.at_end();
    let stopped = match parsed {
        Ok(ws) => if done {
            return Ok(ws);
        } else {
            cursor.refuse(owned("trailing input"))
        },
        Err(err) => err,
    };
    let ghost j = cursor.pos();
    proof {
        let p = prefix@;
        assert(p.take(j) =~= s.take(j));
        lemma_byte_off_prefix(p, s, j);
        lemma_byte_off_mono(p, j, p.len() as int);
        assert(p.take(p.len() as int) =~= s.take(p.len() as int));
        lemma_byte_off_prefix(p, s, p.len() as int);
        lemma_byte_off_mono(s, p.len() as int, s.len() as int);
    }
    Err(stopped.within(&chars))
}

pub open spec fn expected_subscript_msg() -> Seq<char> {
    "expected a subscript"@
}

pub open spec fn subscript_msg(digits: Seq<char>) -> Seq<char> {
    "subscript "@ + debug_str(digits) + " is not an index"@
}

/// `[n]`: a subscript, which is a machine integer.
pub open spec fn bracket_scan(r: Seq<char>) -> Scan<usize> {
    if !has_prefix(r, seq!['[']) {
        Err((0, expected_msg(seq!['['])))
    } else {
        let n = digit_run(r.skip(1));
        if n == 0 {
            Err((1, expected_subscript_msg()))
        } else {
            let d = r.subrange(1, 1 + n);
            if decimal_value(d) > usize::MAX {
                Err((1 + n, subscript_msg(d)))
            } else if !has_prefix(r.skip(1 + n), seq![']']) {
                Err((1 + n, expected_msg(seq![']'])))
            } else {
                Ok((decimal_value(d) as usize, n + 2))
            }
        }
    }
}

/// The entries of an indexed compound after its `(`, up to its `)`.
pub open spec fn indexed_loop(r: Seq<char>, acc: Seq<(usize, Seq<char>)>) -> Scan<
    Seq<(usize, Seq<char>)>,
>
    decreases r.len(),
{
    if has_prefix(r, seq![')']) {
        Ok((acc, 1))
    } else {
        match bracket_scan(r) {
            Err(e) => Err(e),
            Ok((i, k)) => if !has_prefix(r.skip(k), seq!['=']) {
                Err((k, expected_msg(seq!['='])))
            } else {
                match word_scan(r.skip(k + 1), value_stops()) {
                    Err((j, m)) => Err((k + 1 + j, m)),
                    Ok((w, j)) => {
                        let n = k + 1 + j;
                        let b = blank_run(r.skip(n));
                        if 0 < n + b && n + b <= r.len() {
                            shift(indexed_loop(r.skip(n + b), acc.push((i, w))), n + b)
                        } else {
                            Ok((acc, 0))
                        }
                    },
                }
            },
        }
    }
}

/// `([0]=… [5]=…)`: subscripts are data, and sparse.
pub open spec fn indexed_scan(r: Seq<char>) -> Scan<Seq<(usize, Seq<char>)>> {
    if !has_prefix(r, seq!['(']) {
        Err((0, expected_msg(seq!['('])))
    } else {
        let b = blank_run(r.skip(1));
        shift(indexed_loop(r.skip(1 + b), seq![]), 1 + b)
    }
}

/// The entries of an associative compound after its `(`, up to its `)`.
pub open spec fn assoc_loop(r: Seq<char>, acc: Seq<(Seq<char>, Seq<char>)>) -> Scan<
    Seq<(Seq<char>, Seq<char>)>,
>
    decreases r.len(),
{
    if has_prefix(r, seq![')']) {
        Ok((acc, 1))
    } else if !has_prefix(r, seq!['[']) {
        Err((0, expected_msg(seq!['['])))
    } else {
        match word_scan(r.skip(1), key_stops()) {
            Err((j, m)) => Err((1 + j, m)),
            Ok((key, j)) => {
                let a = 1 + j;
                if !has_prefix(r.skip(a), seq![']']) {
                    Err((a, expected_msg(seq![']'])))
                } else if !has_prefix(r.skip(a + 1), seq!['=']) {
                    Err((a + 1, expected_msg(seq!['='])))
                } else {
                    match word_scan(r.skip(a + 2), value_stops()) {
                        Err((j2, m)) => Err((a + 2 + j2, m)),
                        Ok((v, j2)) => {
                            let n = a + 2 + j2;
                            let b = blank_run(r.skip(n));
                            if 0 < n + b && n + b <= r.len() {
                                shift(assoc_loop(r.skip(n + b), acc.push((key, v))), n + b)
                            } else {
                                Ok((acc, 0))
                            }
                        },
                    }
                }
            },
        }
    }
}

/// `([k]=… )`: the key is a word too.
pub open spec fn assoc_scan(r: Seq<char>) -> Scan<Seq<(Seq<char>, Seq<char>)>> {
    if !has_prefix(r, seq!['(']) {
        Err((0, expected_msg(seq!['('])))
    } else {
        let b = blank_run(r.skip(1));
        shift(assoc_loop(r.skip(1 + b), seq![]), 1 + b)
    }
}

/// What `parse_indexed` gives: the entries of the map it builds.
pub open spec fn indexed_spec(text: Seq<char>) -> Result<Seq<(usize, Seq<char>)>, (int, Seq<char>)> {
    let t = trim_newlines(text);
    match whole(indexed_scan(t), t.len() as int) {
        Ok(pairs) => Ok(insert_all(Seq::<(usize, Seq<char>)>::empty(), pairs)),
        Err(e) => Err(e),
    }
}

/// What `parse_assoc` gives: the entries of the map it builds.
pub open spec fn assoc_spec(text: Seq<char>) -> Result<Seq<(Seq<char>, Seq<char>)>, (int, Seq<char>)> {
    let t = trim_newlines(text);
    match whole(assoc_scan(t), t.len() as int) {
        Ok(pairs) => Ok(insert_all(Seq::<(Seq<char>, Seq<char>)>::empty(), pairs)),
        Err(e) => Err(e),
    }
}

fn is_digit_char(c: char) -> (b: bool)
    ensures
        b == is_digit(c),
{
    '0' <= c && c <= '9'
}

proof fn lemma_decimal_prefix(d: Seq<char>, i: int, j: int)
    requires
        0 <= i <= j <= d.len(),
        forall|k: int| 0 <= k < d.len() ==> is_digit(#[trigger] d[k]),
    ensures
        0 <= decimal_value(d.take(i)) <= decimal_value(d.take(j)),
    decreases j,
{
    if j > i {
        lemma_decimal_prefix(d, i, j - 1);
        assert(d.take(j).drop_last() =~= d.take(j - 1));
        assert(is_digit(d[j - 1]));
    } else {
        lemma_decimal_nonneg(d.take(i));
    }
}

pub proof fn lemma_decimal_nonneg(d: Seq<char>)
    requires
        forall|k: int| 0 <= k < d.len() ==> is_digit(#[trigger] d[k]),
    ensures
        0 <= decimal_value(d),
    decreases d.len(),
{
    if d.len() > 0 {
        let e = d.drop_last();
        assert forall|k: int| 0 <= k < e.len() implies is_digit(#[trigger] e[k]) by {
            assert(e[k] == d[k]);
        }
        lemma_decimal_nonneg(e);
        assert(is_digit(d[d.len() - 1]));
    }
}

/// The value of decimal digits, or `None` where it is no machine integer.
pub(crate) fn decimal_number(d: &Vec<char>) -> (r: Option<usize>)
    requires
        forall|k: int| 0 <= k < d.len() ==> is_digit(#[trigger] d@[k]),
    ensures
        r == (if decimal_value(d@) <= usize::MAX {
            Some(decimal_value(d@) as usize)
        } else {
            None
        }),
{
    let mut v: usize = 0;
    let mut i: usize = 0;
    while i < d.len()
        invariant
            i <= d.len(),
            forall|k: int| 0 <= k < d.len() ==> is_digit(#[trigger] d@[k]),
            v == decimal_value(d@.take(i as int)),
        decreases d.len() - i,
    {
        let digit = ((d[i] as u32) - ('0' as u32)) as usize;
        proof {
            assert(is_digit(d@[i as int]));
            assert(d@.take(i + 1).drop_last() =~= d@.take(i as int));
            lemma_decimal_prefix(d@, i + 1, d.len() as int);
            assert(d@.take(d.len() as int) =~= d@);
        }
        match v.checked_mul(10) {
            None => return None,
            Some(tens) => match tens.checked_add(digit) {
                None => return None,
                Some(next) => {
                    v = next;
                },
            },
        }
        i = i + 1;
    }
    proof {
        assert(d@.take(d.len() as int) =~= d@);
    }
    Some(v)
}

fn bracket_index(c: &mut Cursor<'_>) -> (r: Result<usize, ParseError>)
    ensures
        final(c).text() == old(c).text(),
        final(c).in_bounds(),
        old(c).pos() <= final(c).pos(),
        match bracket_scan(old(c).remaining()) {
            Ok((v, k)) => r == Ok::<usize, ParseError>(v) && final(c).pos() == old(c).pos() + k,
            Err((k, m)) => r is Err && r->Err_0.reports(old(c).text(), old(c).pos() + k, m)
                && final(c).pos() == old(c).pos() + k,
        },
{
    let ghost r0 = c.remaining();
    let ghost p0 = c.pos();
    proof {
        reveal_strlit("[");
        reveal_strlit("]");
        assert("["@ =~= seq!['[']);
        assert("]"@ =~= seq![']']);
    }
    match c.lit("[") {
        Ok(()) => {},
        Err(e) => return Err(e),
    }
    let ghost p1 = c.pos();
    proof {
        lemma_run_len_bounds(r0.skip(1), Class::Digit);
    }
    let digits_text = c.take_while(is_digit_char);
    let ghost n = c.pos() - p1;
    proof {
        let r = r0.skip(1);
        assert forall|i: int| 0 <= i < n implies in_class(Class::Digit, #[trigger] r[i]) by {
            assert(r[i] == c.text()[p1 + i]);
        }
        if n < r.len() {
            assert(r[n] == c.text()[c.pos()]);
        }
        lemma_run_len_is(r, Class::Digit, n);
        assert(digits_text@ =~= r0.subrange(1, 1 + n));
    }
    if digits_text.is_empty() {
        return Err(c.refuse(owned("expected a subscript")));
    }
    let digits = chars_of(digits_text);
    proof {
        assert forall|k: int| 0 <= k < digits.len() implies is_digit(#[trigger] digits@[k]) by {
            assert(digits@[k] == r0.skip(1)[k]);
            assert(in_class(Class::Digit, r0.skip(1)[k]));
        }
    }
    match decimal_number(&digits) {
        None => {
            let mut message = owned("subscript ");
            let quoted = debug_quoted(digits_text);
            message.append(quoted.as_str());
            message.append(" is not an index");
            Err(c.refuse(message))
        },
        Some(index) => {
            proof {
                assert(r0.skip(1 + n) =~= c.remaining());
            }
            match c.lit("]") {
                Ok(()) => Ok(index),
                Err(e) => Err(e),
            }
        },
    }
}

fn indexed_compound(c: &mut Cursor<'_>) -> (r: Result<IndexMap<usize, String>, ParseError>)
    ensures
        final(c).text() == old(c).text(),
        match indexed_scan(old(c).remaining()) {
            Ok((pairs, k)) => r is Ok && indexed_entries(r->Ok_0) == insert_all(
                Seq::<(usize, Seq<char>)>::empty(),
                pairs,
            ) && distinct_keys(indexed_entries(r->Ok_0)) && final(c).pos() == old(c).pos() + k,
            Err((k, m)) => r is Err && r->Err_0.reports(old(c).text(), old(c).pos() + k, m)
                && final(c).pos() == old(c).pos() + k,
        },
{
    let ghost text = c.text();
    let ghost p0 = c.pos();
    let ghost r0 = c.remaining();
    proof {
        reveal_strlit("(");
        reveal_strlit(")");
        reveal_strlit("=");
        assert("("@ =~= seq!['(']);
        assert(")"@ =~= seq![')']);
        assert("="@ =~= seq!['=']);
    }
    match c.lit("(") {
        Ok(()) => {},
        Err(e) => return Err(e),
    }
    proof {
        assert(r0.skip(1) =~= c.remaining());
    }
    c.ws0();
    proof {
        assert(r0.skip(c.pos() - p0) =~= c.remaining());
    }
    let mut out = new_indexed();
    let ghost mut pairs: Seq<(usize, Seq<char>)> = Seq::empty();
    while !c.starts_with(")")
        invariant
            c.text() == text,
            text == old(c).text(),
            p0 == old(c).pos(),
            r0 == old(c).remaining(),
            c.in_bounds(),
            p0 < c.pos(),
            "("@ == seq!['('],
            ")"@ == seq![')'],
            "="@ == seq!['='],
            indexed_scan(r0) == shift(indexed_loop(c.remaining(), pairs), c.pos() - p0),
            indexed_entries(out) == insert_all(Seq::<(usize, Seq<char>)>::empty(), pairs),
            distinct_keys(indexed_entries(out)),
        decreases c.text().len() - c.pos(),
    {
        let ghost rem = c.remaining();
        let ghost before = c.pos();
        let index = match bracket_index(c) {
            Ok(index) => index,
            Err(e) => return Err(e),
        };
        let ghost k = c.pos() - before;
        proof {
            assert(rem.skip(k) =~= c.remaining());
        }
        match c.lit("=") {
            Ok(()) => {},
            Err(e) => return Err(e),
        }
        proof {
            assert(rem.skip(k + 1) =~= c.remaining());
            lemma_word_bounds(rem.skip(k + 1), value_stops());
        }
        let value = match c.word(&value_stop_chars()) {
            Ok(w) => w,
            Err(e) => return Err(e),
        };
        let ghost n = c.pos() - before;
        proof {
            assert(rem.skip(n) =~= c.remaining());
            lemma_run_len_bounds(rem.skip(n), Class::Blank);
        }
        let ghost w = value@;
        let ghost old_pairs = pairs;
        insert_indexed(&mut out, index, value);
        proof {
            pairs = pairs.push((index, w));
            assert(pairs.drop_last() =~= old_pairs);
        }
        c.ws0();
        proof {
            let b = c.pos() - before - n;
            assert(rem.skip(n + b) =~= c.remaining());
            assert(indexed_loop(rem, old_pairs) == shift(indexed_loop(rem.skip(n + b), pairs), n + b));
        }
    }
    match c.lit(")") {
        Ok(()) => {},
        Err(e) => return Err(e),
    }
    Ok(out)
}

/// An indexed array as `declare -p` writes it: `([0]='a' [5]='b')`, its
/// subscripts kept as data and its entries in the order written.
pub fn parse_indexed(text: &str) -> (r: Result<IndexMap<usize, String>, ParseError>)
    requires
        fits(text@),
    ensures
        match indexed_spec(text@) {
            Ok(e) => r is Ok && indexed_entries(r->Ok_0) == e && distinct_keys(e),
            Err((k, m)) => r is Err && r->Err_0.reports(trim_newlines(text@), k, m),
        },
{
    let t = trimmed(text);
    proof {
        lemma_trim_newlines(text@);
        lemma_fits_subrange(text@, 0, t@.len() as int);
        assert(text@.subrange(0, t@.len() as int) =~= t@);
    }
    let r = parse_with(t, indexed_compound);
    proof {
        assert(t@.skip(0) =~= t@);
    }
    r
}

fn assoc_compound(c: &mut Cursor<'_>) -> (r: Result<IndexMap<String, String>, ParseError>)
    ensures
        final(c).text() == old(c).text(),
        match assoc_scan(old(c).remaining()) {
            Ok((pairs, k)) => r is Ok && assoc_entries(r->Ok_0) == insert_all(
                Seq::<(Seq<char>, Seq<char>)>::empty(),
                pairs,
            ) && distinct_keys(assoc_entries(r->Ok_0)) && final(c).pos() == old(c).pos() + k,
            Err((k, m)) => r is Err && r->Err_0.reports(old(c).text(), old(c).pos() + k, m)
                && final(c).pos() == old(c).pos() + k,
        },
{
    let ghost text = c.text();
    let ghost p0 = c.pos();
    let ghost r0 = c.remaining();
    proof {
        reveal_strlit("(");
        reveal_strlit(")");
        reveal_strlit("=");
        reveal_strlit("[");
        reveal_strlit("]");
        assert("("@ =~= seq!['(']);
        assert(")"@ =~= seq![')']);
        assert("="@ =~= seq!['=']);
        assert("["@ =~= seq!['[']);
        assert("]"@ =~= seq![']']);
    }
    match c.lit("(") {
        Ok(()) => {},
        Err(e) => return Err(e),
    }
    proof {
        assert(r0.skip(1) =~= c.remaining());
    }
    c.ws0();
    proof {
        assert(r0.skip(c.pos() - p0) =~= c.remaining());
    }
    let mut out = new_assoc();
    let ghost mut pairs: Seq<(Seq<char>, Seq<char>)> = Seq::empty();
    while !c.starts_with(")")
        invariant
            c.text() == text,
            text == old(c).text(),
            p0 == old(c).pos(),
            r0 == old(c).remaining(),
            c.in_bounds(),
            p0 < c.pos(),
            "("@ == seq!['('],
            ")"@ == seq![')'],
            "="@ == seq!['='],
            "["@ == seq!['['],
            "]"@ == seq![']'],
            assoc_scan(r0) == shift(assoc_loop(c.remaining(), pairs), c.pos() - p0),
            assoc_entries(out) == insert_all(Seq::<(Seq<char>, Seq<char>)>::empty(), pairs),
            distinct_keys(assoc_entries(out)),
        decreases c.text().len() - c.pos(),
    {
        let ghost rem = c.remaining();
        let ghost before = c.pos();
        match c.lit("[") {
            Ok(()) => {},
            Err(e) => return Err(e),
        }
        proof {
            assert(rem.skip(1) =~= c.remaining());
            lemma_word_bounds(rem.skip(1), key_stops());
        }
        let key = match c.word(&key_stop_chars()) {
            Ok(w) => w,
            Err(e) => return Err(e),
        };
        let ghost a = c.pos() - before;
        proof {
            assert(rem.skip(a) =~= c.remaining());
        }
        match c.lit("]") {
            Ok(()) => {},
            Err(e) => return Err(e),
        }
        proof {
            assert(rem.skip(a + 1) =~= c.remaining());
        }
        match c.lit("=") {
            Ok(()) => {},
            Err(e) => return Err(e),
        }
        proof {
            assert(rem.skip(a + 2) =~= c.remaining());
            lemma_word_bounds(rem.skip(a + 2), value_stops());
        }
        let value = match c.word(&value_stop_chars()) {
            Ok(w) => w,
            Err(e) => return Err(e),
        };
        let ghost n = c.pos() - before;
        proof {
            assert(rem.skip(n) =~= c.remaining());
            lemma_run_len_bounds(rem.skip(n), Class::Blank);
        }
        let ghost kv = (key@, value@);
        let ghost old_pairs = pairs;
        insert_assoc(&mut out, key, value);
        proof {
            pairs = pairs.push(kv);
            assert(pairs.drop_last() =~= old_pairs);
        }
        c.ws0();
        proof {
            let b = c.pos() - before - n;
            assert(rem.skip(n + b) =~= c.remaining());
            assert(assoc_loop(rem, old_pairs) == shift(assoc_loop(rem.skip(n + b), pairs), n + b));
        }
    }
    match c.lit(")") {
        Ok(()) => {},
        Err(e) => return Err(e),
    }
    Ok(out)
}

/// An associative array as `declare -p` writes it: `([k]='v' )`, its entries
/// in the order written.
pub fn parse_assoc(text: &str) -> (r: Result<IndexMap<String, String>, ParseError>)
    requires
        fits(text@),
    ensures
        match assoc_spec(text@) {
            Ok(e) => r is Ok && assoc_entries(r->Ok_0) == e && distinct_keys(e),
            Err((k, m)) => r is Err && r->Err_0.reports(trim_newlines(text@), k, m),
        },
{
    let t = trimmed(text);
    proof {
        lemma_trim_newlines(text@);
        lemma_fits_subrange(text@, 0, t@.len() as int);
        assert(text@.subrange(0, t@.len() as int) =~= t@);
    }
    let r = parse_with(t, assoc_compound);
    proof {
        assert(t@.skip(0) =~= t@);
    }
    r
}

} // verus!
