//! What bash natively stores: a scalar string, an indexed array of strings,
//! or an associative array of strings. No nesting; bash itself can't.
//!
//! `BashRaw` mirrors bash's three native variable shapes, with a bash
//! literal for each, a way to pack any of them into one word and back, and
//! readers for what `${var@Q}` prints.

use vstd::prelude::*;

use crate::emit::{lemma_spaced_push, spaced};
use crate::index_map::{
    assoc_entries, assoc_entry, assoc_len, distinct_keys, insert_assoc, insert_entry,
    lemma_key_index_absent, new_assoc,
};
use crate::parser::{
    is_space, lemma_trim_is_subrange, lemma_trim_start, trim, trim_bounds, trim_end_spaces,
    trim_spaces, trim_start, trim_start_spaces, views,
};
use crate::primitives::{
    encode_scalar, encoded, law_encode_round_trip, lemma_encoded_word_reads, lemma_word_read_len,
    parse_one_word, parse_words, word_read, words_read, ParseError, Refusal, WordStep, WordsStep,
};
use crate::quoting::owned;
use crate::text::{
    chars_of, debug_quoted, debug_str, fits, fits_chars, lemma_fits_chars, lemma_fits_subrange,
    push_char,
};
use indexmap::IndexMap;

verus! {

/// One of bash's three native variable shapes.
#[derive(Debug, PartialEq)]
pub enum BashRaw {
    String(String),
    Array(Vec<String>),
    AssocArray(IndexMap<String, String>),
}

/// A shape as the contracts see it.
pub enum RawView {
    Scalar(Seq<char>),
    Words(Seq<Seq<char>>),
    Entries(Seq<(Seq<char>, Seq<char>)>),
}

impl View for BashRaw {
    type V = RawView;

    open spec fn view(&self) -> RawView {
        match self {
            BashRaw::String(s) => RawView::Scalar(s@),
            BashRaw::Array(v) => RawView::Words(views(v@)),
            BashRaw::AssocArray(m) => RawView::Entries(assoc_entries(*m)),
        }
    }
}

/// A shape was asked for that the value does not have.
#[derive(Debug, Clone, PartialEq)]
pub enum ConversionError {
    WrongVariant { expected: &'static str, got: &'static str },
}

impl ConversionError {
    /// How the refusal reads to a person.
    pub open spec fn text(&self) -> Seq<char> {
        match self {
            ConversionError::WrongVariant { expected, got } => "BashRaw conversion: expected variant "@
                + expected@ + ", got "@ + got@,
        }
    }

    /// The refusal as a person reads it.
    pub fn describe(&self) -> (s: String)
        ensures
            s@ == self.text(),
    {
        match self {
            ConversionError::WrongVariant { expected, got } => {
                let mut s = crate::quoting::owned("BashRaw conversion: expected variant ");
                s.append(expected);
                s.append(", got ");
                s.append(got);
                s
            },
        }
    }
}

/// The name of a shape.
pub open spec fn variant_name_of(r: BashRaw) -> &'static str {
    match r {
        BashRaw::String(_) => "String",
        BashRaw::Array(_) => "Array",
        BashRaw::AssocArray(_) => "AssocArray",
    }
}

/// The refusal for a value of another shape than `expected`.
pub open spec fn wrong_variant(expected: &'static str, r: BashRaw) -> ConversionError {
    ConversionError::WrongVariant { expected, got: variant_name_of(r) }
}

impl BashRaw {
    pub fn string(s: String) -> (r: Self)
        ensures
            r@ == RawView::Scalar(s@),
    {
        BashRaw::String(s)
    }

    pub fn array() -> (r: Self)
        ensures
            r@ == RawView::Words(Seq::empty()),
    {
        let v: Vec<String> = Vec::new();
        assert(views(v@) =~= Seq::<Seq<char>>::empty());
        BashRaw::Array(v)
    }

    pub fn assoc() -> (r: Self)
        ensures
            r@ == RawView::Entries(Seq::empty()),
    {
        BashRaw::AssocArray(new_assoc())
    }

    /// The array with `s` added at its end. Only an array has an end to add
    /// to.
    pub fn arg(self, s: String) -> (r: Self)
        requires
            self is Array,
        ensures
            r@ == RawView::Words(self@->Words_0.push(s@)),
    {
        match self {
            BashRaw::Array(v) => {
                let mut v = v;
                let ghost before = v@;
                v.push(s);
                assert(views(v@) =~= views(before).push(s@));
                BashRaw::Array(v)
            },
            // Another shape is excluded by the precondition.
            other => other,
        }
    }

    /// The array with `items` added at its end, in order. Only an array has
    /// an end to add to.
    pub fn args(self, items: Vec<String>) -> (r: Self)
        requires
            self is Array,
        ensures
            r@ == RawView::Words(self@->Words_0 + views(items@)),
    {
        match self {
            BashRaw::Array(v) => {
                let mut v = v;
                let mut items = items;
                let ghost before = v@;
                let ghost added = items@;
                v.append(&mut items);
                assert(views(v@) =~= views(before) + views(added));
                BashRaw::Array(v)
            },
            // Another shape is excluded by the precondition.
            other => other,
        }
    }

    /// The map with `v` put under `k`: an existing key keeps its place, a
    /// new one goes last. Only an associative array holds keys.
    pub fn put(self, k: String, v: String) -> (r: Self)
        requires
            self is AssocArray,
        ensures
            r@ == RawView::Entries(insert_entry(self@->Entries_0, k@, v@)),
    {
        match self {
            BashRaw::AssocArray(m) => {
                let mut m = m;
                insert_assoc(&mut m, k, v);
                BashRaw::AssocArray(m)
            },
            // Another shape is excluded by the precondition.
            other => other,
        }
    }

    fn variant_name(&self) -> (name: &'static str)
        ensures
            name == variant_name_of(*self),
    {
        match self {
            BashRaw::String(_) => "String",
            BashRaw::Array(_) => "Array",
            BashRaw::AssocArray(_) => "AssocArray",
        }
    }

    pub fn into_string(self) -> (r: Result<String, ConversionError>)
        ensures
            match self {
                BashRaw::String(s) => r == Ok::<String, ConversionError>(s),
                other => r == Err::<String, ConversionError>(wrong_variant("String", other)),
            },
    {
        match self {
            BashRaw::String(s) => Ok(s),
            other => {
                let got = other.variant_name();
                Err(ConversionError::WrongVariant { expected: "String", got })
            },
        }
    }

    pub fn into_array(self) -> (r: Result<Vec<String>, ConversionError>)
        ensures
            match self {
                BashRaw::Array(v) => r == Ok::<Vec<String>, ConversionError>(v),
                other => r == Err::<Vec<String>, ConversionError>(wrong_variant("Array", other)),
            },
    {
        match self {
            BashRaw::Array(v) => Ok(v),
            other => {
                let got = other.variant_name();
                Err(ConversionError::WrongVariant { expected: "Array", got })
            },
        }
    }

    pub fn into_assoc(self) -> (r: Result<IndexMap<String, String>, ConversionError>)
        ensures
            match self {
                BashRaw::AssocArray(m) => r == Ok::<IndexMap<String, String>, ConversionError>(m),
                other => r == Err::<IndexMap<String, String>, ConversionError>(
                    wrong_variant("AssocArray", other),
                ),
            },
    {
        match self {
            BashRaw::AssocArray(m) => Ok(m),
            other => {
                let got = other.variant_name();
                Err(ConversionError::WrongVariant { expected: "AssocArray", got })
            },
        }
    }

    pub fn as_string(&self) -> (r: Result<&str, ConversionError>)
        ensures
            match self {
                BashRaw::String(s) => r is Ok && r->Ok_0@ == s@,
                other => r == Err::<&str, ConversionError>(wrong_variant("String", *other)),
            },
    {
        match self {
            BashRaw::String(s) => Ok(s.as_str()),
            other => {
                let got = other.variant_name();
                Err(ConversionError::WrongVariant { expected: "String", got })
            },
        }
    }

    pub fn as_array(&self) -> (r: Result<&[String], ConversionError>)
        ensures
            match self {
                BashRaw::Array(v) => r is Ok && r->Ok_0@ == v@,
                other => r == Err::<&[String], ConversionError>(wrong_variant("Array", *other)),
            },
    {
        match self {
            BashRaw::Array(v) => Ok(v.as_slice()),
            other => {
                let got = other.variant_name();
                Err(ConversionError::WrongVariant { expected: "Array", got })
            },
        }
    }

    pub fn as_assoc(&self) -> (r: Result<&IndexMap<String, String>, ConversionError>)
        ensures
            match self {
                BashRaw::AssocArray(m) => r is Ok && *r->Ok_0 == *m,
                other => r == Err::<&IndexMap<String, String>, ConversionError>(
                    wrong_variant("AssocArray", *other),
                ),
            },
    {
        match self {
            BashRaw::AssocArray(m) => Ok(m),
            other => {
                let got = other.variant_name();
                Err(ConversionError::WrongVariant { expected: "AssocArray", got })
            },
        }
    }
}

impl From<String> for BashRaw {
    fn from(s: String) -> (r: Self) {
        BashRaw::String(s)
    }
}

impl vstd::std_specs::convert::FromSpecImpl<String> for BashRaw {
    open spec fn obeys_from_spec() -> bool {
        true
    }

    open spec fn from_spec(s: String) -> Self {
        BashRaw::String(s)
    }
}

impl From<Vec<String>> for BashRaw {
    fn from(v: Vec<String>) -> (r: Self) {
        BashRaw::Array(v)
    }
}

impl vstd::std_specs::convert::FromSpecImpl<Vec<String>> for BashRaw {
    open spec fn obeys_from_spec() -> bool {
        true
    }

    open spec fn from_spec(v: Vec<String>) -> Self {
        BashRaw::Array(v)
    }
}

impl From<IndexMap<String, String>> for BashRaw {
    fn from(m: IndexMap<String, String>) -> (r: Self) {
        BashRaw::AssocArray(m)
    }
}

impl vstd::std_specs::convert::FromSpecImpl<IndexMap<String, String>> for BashRaw {
    open spec fn obeys_from_spec() -> bool {
        true
    }

    open spec fn from_spec(m: IndexMap<String, String>) -> Self {
        BashRaw::AssocArray(m)
    }
}

// ---- bash literals -------------------------------------------------------------

/// `[k]=v`, each side one word.
pub open spec fn raw_entry(k: Seq<char>, v: Seq<char>) -> Seq<char> {
    seq!['['] + encoded(k) + seq![']', '='] + encoded(v)
}

/// Each string as one word.
pub open spec fn encoded_words(ws: Seq<Seq<char>>) -> Seq<Seq<char>> {
    Seq::new(ws.len(), |i: int| encoded(ws[i]))
}

/// Each entry as `[k]=v`.
pub open spec fn encoded_entries(es: Seq<(Seq<char>, Seq<char>)>) -> Seq<Seq<char>> {
    Seq::new(es.len(), |i: int| raw_entry(es[i].0, es[i].1))
}

/// The bash literal of a shape: a word for a string, `('w1' 'w2')` for an
/// array, `(['k']='v')` for an associative array.
pub open spec fn raw_literal(r: RawView) -> Seq<char> {
    match r {
        RawView::Scalar(s) => encoded(s),
        RawView::Words(ws) => seq!['('] + spaced(encoded_words(ws)) + seq![')'],
        RawView::Entries(es) => seq!['('] + spaced(encoded_entries(es)) + seq![')'],
    }
}

/// `('w1' 'w2')`: each word encoded, one space apart, in parentheses.
pub(crate) fn array_literal(v: &Vec<String>) -> (out: String)
    ensures
        out@ == raw_literal(RawView::Words(views(v@))),
{
    let ghost ws = views(v@);
    let mut out = String::new();
    push_char(&mut out, '(');
    let mut i: usize = 0;
    assert(encoded_words(ws).take(0) =~= Seq::<Seq<char>>::empty());
    while i < v.len()
        invariant
            i <= v.len(),
            ws == views(v@),
            out@ == seq!['('] + spaced(encoded_words(ws).take(i as int)),
        decreases v.len() - i,
    {
        if i > 0 {
            push_char(&mut out, ' ');
        }
        let w = encode_scalar(v[i].as_str());
        out.append(w.as_str());
        proof {
            let items = encoded_words(ws).take(i as int);
            lemma_spaced_push(items, w@);
            assert(encoded_words(ws).take(i + 1) =~= items.push(w@));
            if i == 0 {
                assert(out@ =~= seq!['('] + spaced(items.push(w@)));
            } else {
                assert(out@ =~= seq!['('] + spaced(items.push(w@)));
            }
        }
        i = i + 1;
    }
    push_char(&mut out, ')');
    assert(encoded_words(ws).take(v.len() as int) =~= encoded_words(ws));
    out
}

/// `(['k']='v' …)`: each entry `[key]=value`, both encoded, one space
/// apart, in parentheses, in the map's order.
pub(crate) fn assoc_literal(m: &IndexMap<String, String>) -> (out: String)
    ensures
        out@ == raw_literal(RawView::Entries(assoc_entries(*m))),
{
    let ghost es = assoc_entries(*m);
    let n = assoc_len(m);
    let mut out = String::new();
    push_char(&mut out, '(');
    let mut i: usize = 0;
    assert(encoded_entries(es).take(0) =~= Seq::<Seq<char>>::empty());
    while i < n
        invariant
            i <= n,
            n == es.len(),
            es == assoc_entries(*m),
            out@ == seq!['('] + spaced(encoded_entries(es).take(i as int)),
        decreases n - i,
    {
        if i > 0 {
            push_char(&mut out, ' ');
        }
        let (k, v) = assoc_entry(m, i);
        let mut item = String::new();
        push_char(&mut item, '[');
        item.append(encode_scalar(k.as_str()).as_str());
        push_char(&mut item, ']');
        push_char(&mut item, '=');
        item.append(encode_scalar(v.as_str()).as_str());
        out.append(item.as_str());
        proof {
            let items = encoded_entries(es).take(i as int);
            assert(item@ =~= raw_entry(es[i as int].0, es[i as int].1));
            lemma_spaced_push(items, item@);
            assert(encoded_entries(es).take(i + 1) =~= items.push(item@));
            assert(out@ =~= seq!['('] + spaced(items.push(item@)));
        }
        i = i + 1;
    }
    push_char(&mut out, ')');
    assert(encoded_entries(es).take(n as int) =~= encoded_entries(es));
    out
}

impl BashRaw {
    /// The value as a bash literal expression, for `eval` or an assignment.
    pub fn to_bash_literal(&self) -> (out: String)
        ensures
            out@ == raw_literal(self@),
    {
        match self {
            BashRaw::String(s) => encode_scalar(s.as_str()),
            BashRaw::Array(v) => array_literal(v),
            BashRaw::AssocArray(m) => assoc_literal(m),
        }
    }

    /// Any shape as one bash word: its literal, quoted once more.
    pub fn pack_as_string(&self) -> (out: String)
        ensures
            out@ == encoded(raw_literal(self@)),
    {
        let literal = self.to_bash_literal();
        encode_scalar(literal.as_str())
    }
}

// ---- reading what `${var@Q}` prints ---------------------------------------------

/// How a reading goes: a shape, or a refusal.
pub enum RawStep {
    Read(RawView),
    Refused(Refusal),
}

/// A shape as a value can hold it: an associative array has no key twice.
pub open spec fn raw_wf(v: RawView) -> bool {
    match v {
        RawView::Entries(es) => distinct_keys(es),
        _ => true,
    }
}

/// What a reader returning a shape did, against what the text reads as.
pub open spec fn raw_outcome(r: Result<BashRaw, ParseError>, s: RawStep) -> bool {
    match s {
        RawStep::Read(v) => r is Ok && r->Ok_0@ == v && raw_wf(v),
        RawStep::Refused(e) => r is Err && r->Err_0@ == e,
    }
}

/// A scalar's `@Q` output: one word, and nothing after it but whitespace.
pub open spec fn string_at_q(text: Seq<char>) -> RawStep {
    let t = trim_spaces(text);
    if t.len() == 0 {
        RawStep::Read(RawView::Scalar(seq![]))
    } else {
        match word_read(t, 0, seq![]) {
            WordStep::Read(w, k) => {
                let rest = trim_spaces(t.skip(k));
                if rest.len() > 0 {
                    RawStep::Refused(Refusal::TrailingContent(rest))
                } else {
                    RawStep::Read(RawView::Scalar(w))
                }
            },
            WordStep::Refused(e) => RawStep::Refused(e),
        }
    }
}

/// An indexed array's `@Q` output: words separated by whitespace.
pub open spec fn array_at_q(text: Seq<char>) -> RawStep {
    match words_read(trim_spaces(text), seq![]) {
        WordsStep::Read(ws) => RawStep::Read(RawView::Words(ws)),
        WordsStep::Refused(e) => RawStep::Refused(e),
    }
}

/// The refusal message for text that is no `(…)` literal.
pub open spec fn literal_array_msg(t: Seq<char>) -> Seq<char> {
    "expected (...) array literal: "@ + debug_str(t)
}

/// A bash literal array expression: `('w1' 'w2')`.
pub open spec fn literal_array(text: Seq<char>) -> RawStep {
    let t = trim_spaces(text);
    if t.len() >= 2 && t[0] == '(' && t.last() == ')' {
        array_at_q(t.subrange(1, t.len() - 1))
    } else {
        RawStep::Refused(Refusal::InvalidFormat(literal_array_msg(t)))
    }
}

/// The refusal message for text where an entry `[key]=value` should stand.
pub open spec fn entry_msg(r: Seq<char>) -> Seq<char> {
    "expected [key]=value entry: "@ + debug_str(r)
}

/// The inside of `(['k']='v' …)`: entries `[key]=value`, whitespace between
/// them, each inserted as a map inserts it, with `acc` read so far.
pub open spec fn assoc_literal_read(r0: Seq<char>, acc: Seq<(Seq<char>, Seq<char>)>) -> RawStep
    decreases r0.len(),
{
    let r = trim_start_spaces(r0);
    if r.len() == 0 {
        RawStep::Read(RawView::Entries(acc))
    } else if r[0] != '[' {
        RawStep::Refused(Refusal::InvalidFormat(entry_msg(r)))
    } else {
        let body = r.skip(1);
        match word_read(body, 0, seq![]) {
            WordStep::Refused(e) => RawStep::Refused(e),
            WordStep::Read(key, j) => {
                let a = body.skip(j);
                if a.len() >= 2 && a[0] == ']' && a[1] == '=' {
                    let v = a.skip(2);
                    match word_read(v, 0, seq![]) {
                        WordStep::Refused(e) => RawStep::Refused(e),
                        WordStep::Read(value, m) => {
                            proof {
                                lemma_trim_start(r0);
                                lemma_word_read_len(body, 0, seq![]);
                                lemma_word_read_len(v, 0, seq![]);
                            }
                            assoc_literal_read(v.skip(m), insert_entry(acc, key, value))
                        },
                    }
                } else {
                    RawStep::Refused(Refusal::InvalidFormat(entry_msg(r)))
                }
            },
        }
    }
}

/// A bash literal expression read back as the shape it writes: `(…)`
/// holding `[key]=value` entries is an associative array, any other `(…)` an
/// array, and a word a string.
pub open spec fn literal_value(text: Seq<char>) -> RawStep {
    let t = trim_spaces(text);
    if t.len() >= 2 && t[0] == '(' && t.last() == ')' {
        let inner = t.subrange(1, t.len() - 1);
        let body = trim_start_spaces(inner);
        if body.len() > 0 && body[0] == '[' {
            assoc_literal_read(inner, seq![])
        } else {
            array_at_q(inner)
        }
    } else {
        string_at_q(text)
    }
}

/// A packed word, unwrapped and read as a bash literal expression.
pub open spec fn unpacked(text: Seq<char>) -> RawStep {
    match string_at_q(text) {
        RawStep::Read(RawView::Scalar(s)) => literal_value(s),
        other => other,
    }
}

/// The entries inside `(…)`, read into a fresh map.
fn read_assoc_literal(inner: &str) -> (r: Result<BashRaw, ParseError>)
    requires
        fits(inner@),
    ensures
        raw_outcome(r, assoc_literal_read(inner@, seq![])),
{
    let mut map = new_assoc();
    let mut rest: &str = inner;
    loop
        invariant
            fits(rest@),
            assoc_literal_read(inner@, seq![]) == assoc_literal_read(rest@, assoc_entries(map)),
            distinct_keys(assoc_entries(map)),
        decreases rest@.len(),
    {
        let ghost r0 = rest@;
        let r = trim_start(rest);
        proof {
            lemma_trim_start(r0);
            lemma_fits_subrange(r0, r0.len() - r@.len(), r0.len() as int);
            assert(r0.subrange(r0.len() - r@.len(), r0.len() as int) =~= r@);
        }
        if r.is_empty() {
            return Ok(BashRaw::AssocArray(map));
        }
        let n = r.unicode_len();
        if r.get_char(0) != '[' {
            let mut message = owned("expected [key]=value entry: ");
            message.append(debug_quoted(r).as_str());
            return Err(ParseError::InvalidFormat(message));
        }
        let body = r.substring_char(1, n);
        proof {
            lemma_fits_subrange(r@, 1, n as int);
            assert(r@.subrange(1, n as int) =~= r@.skip(1));
        }
        let (key, a) = match parse_one_word(body) {
            Ok(p) => p,
            Err(e) => {
                return Err(e);
            },
        };
        proof {
            lemma_word_read_len(body@, 0, seq![]);
        }
        let ghost j = body@.len() - a@.len();
        let an = a.unicode_len();
        if !(an >= 2 && a.get_char(0) == ']' && a.get_char(1) == '=') {
            let mut message = owned("expected [key]=value entry: ");
            message.append(debug_quoted(r).as_str());
            return Err(ParseError::InvalidFormat(message));
        }
        let v = a.substring_char(2, an);
        proof {
            lemma_fits_subrange(body@, j, body@.len() as int);
            assert(body@.subrange(j, body@.len() as int) =~= a@);
            lemma_fits_subrange(a@, 2, an as int);
            assert(a@.subrange(2, an as int) =~= a@.skip(2));
        }
        let (value, after) = match parse_one_word(v) {
            Ok(p) => p,
            Err(e) => {
                return Err(e);
            },
        };
        proof {
            lemma_word_read_len(v@, 0, seq![]);
            let m = v@.len() - after@.len();
            lemma_fits_subrange(v@, m, v@.len() as int);
            assert(v@.subrange(m, v@.len() as int) =~= after@);
        }
        insert_assoc(&mut map, key, value);
        rest = after;
    }
}

impl BashRaw {
    /// The `@Q` output for a scalar variable: one quoted word, and nothing
    /// after it but whitespace.
    pub fn parse_string_at_q(input: &str) -> (r: Result<Self, ParseError>)
        requires
            fits(input@),
        ensures
            raw_outcome(r, string_at_q(input@)),
    {
        let t = trim(input);
        proof {
            lemma_trim_is_subrange(input@);
            let (a, b) = trim_bounds(input@);
            lemma_fits_subrange(input@, a, b);
        }
        if t.is_empty() {
            return Ok(BashRaw::String(String::new()));
        }
        let (word, rest) = match parse_one_word(t) {
            Ok(p) => p,
            Err(e) => {
                return Err(e);
            },
        };
        let rest = trim(rest);
        if !rest.is_empty() {
            return Err(ParseError::TrailingContent(owned(rest)));
        }
        Ok(BashRaw::String(word))
    }

    /// The `@Q` output for an indexed array: quoted words separated by
    /// whitespace.
    pub fn parse_array_at_q(input: &str) -> (r: Result<Self, ParseError>)
        requires
            fits(input@),
        ensures
            raw_outcome(r, array_at_q(input@)),
    {
        match parse_words(input) {
            Ok(words) => Ok(BashRaw::Array(words)),
            Err(e) => Err(e),
        }
    }

    /// A bash literal array expression: `('w1' 'w2')`. The inverse of
    /// `to_bash_literal` for an array.
    pub fn parse_bash_literal_array(input: &str) -> (r: Result<Self, ParseError>)
        requires
            fits(input@),
        ensures
            raw_outcome(r, literal_array(input@)),
    {
        let trimmed = trim(input);
        let chars = chars_of(trimmed);
        let n = chars.len();
        if n >= 2 && chars[0] == '(' && chars[n - 1] == ')' {
            let inner = trimmed.substring_char(1, n - 1);
            proof {
                lemma_trim_is_subrange(input@);
                let (a, b) = trim_bounds(input@);
                lemma_fits_subrange(input@, a, b);
                lemma_fits_subrange(trimmed@, 1, n - 1);
            }
            Self::parse_array_at_q(inner)
        } else {
            let mut message = owned("expected (...) array literal: ");
            message.append(debug_quoted(trimmed).as_str());
            Err(ParseError::InvalidFormat(message))
        }
    }

    /// A bash literal expression, read back as the shape that
    /// `to_bash_literal` wrote it for: `(['k']='v' …)` as an associative
    /// array, `('w1' 'w2')` as an array, a quoted word as a string.
    pub fn parse_bash_literal(input: &str) -> (r: Result<Self, ParseError>)
        requires
            fits(input@),
        ensures
            raw_outcome(r, literal_value(input@)),
    {
        let trimmed = trim(input);
        let chars = chars_of(trimmed);
        let n = chars.len();
        if n >= 2 && chars[0] == '(' && chars[n - 1] == ')' {
            let inner = trimmed.substring_char(1, n - 1);
            proof {
                lemma_trim_is_subrange(input@);
                let (a, b) = trim_bounds(input@);
                lemma_fits_subrange(input@, a, b);
                lemma_fits_subrange(trimmed@, 1, n - 1);
            }
            let body = trim_start(inner);
            if !body.is_empty() && body.get_char(0) == '[' {
                read_assoc_literal(inner)
            } else {
                Self::parse_array_at_q(inner)
            }
        } else {
            Self::parse_string_at_q(input)
        }
    }

    /// The inverse of `pack_as_string`: one quoted word, unwrapped and read
    /// as the bash literal expression of whichever shape it holds.
    pub fn unpack_from_string(packed: &str) -> (r: Result<Self, ParseError>)
        requires
            fits_chars(packed@),
        ensures
            raw_outcome(r, unpacked(packed@)),
    {
        proof {
            lemma_fits_chars(packed@);
            let t = trim_spaces(packed@);
            lemma_trim_is_subrange(packed@);
            if t.len() > 0 {
                lemma_word_read_len(t, 0, seq![]);
            }
        }
        let inner = match Self::parse_string_at_q(packed) {
            Ok(v) => v,
            Err(e) => {
                return Err(e);
            },
        };
        match inner {
            BashRaw::String(s) => {
                proof {
                    assert(fits_chars(s@));
                    lemma_fits_chars(s@);
                }
                Self::parse_bash_literal(s.as_str())
            },
            // `parse_string_at_q` gives a string, so this arm is never taken.
            other => Ok(other),
        }
    }
}

// ---- the per-line associative dump --------------------------------------------

/// How many characters come before the first newline.
pub open spec fn line_len(s: Seq<char>) -> int
    decreases s.len(),
{
    if s.len() == 0 || s[0] == '\n' {
        0
    } else {
        1 + line_len(s.skip(1))
    }
}

/// The lines of a text: what lies between its newlines.
pub open spec fn lines_of(s: Seq<char>) -> Seq<Seq<char>>
    decreases s.len(),
{
    let n = line_len(s);
    if n < 0 || n >= s.len() {
        seq![s]
    } else {
        seq![s.take(n)] + lines_of(s.skip(n + 1))
    }
}

proof fn lemma_line_len(s: Seq<char>)
    ensures
        0 <= line_len(s) <= s.len(),
        forall|i: int| 0 <= i < line_len(s) ==> #[trigger] s[i] != '\n',
        line_len(s) < s.len() ==> s[line_len(s)] == '\n',
    decreases s.len(),
{
    if s.len() > 0 && s[0] != '\n' {
        lemma_line_len(s.skip(1));
        assert forall|i: int| 0 <= i < line_len(s) implies #[trigger] s[i] != '\n' by {
            if i > 0 {
                assert(s[i] == s.skip(1)[i - 1]);
            }
        }
        if line_len(s) < s.len() {
            assert(s[line_len(s)] == s.skip(1)[line_len(s.skip(1))]);
        }
    }
}

proof fn lemma_line_len_is(s: Seq<char>, n: int)
    requires
        0 <= n <= s.len(),
        forall|i: int| 0 <= i < n ==> #[trigger] s[i] != '\n',
        n < s.len() ==> s[n] == '\n',
    ensures
        line_len(s) == n,
    decreases s.len(),
{
    if n > 0 {
        assert(s[0] != '\n');
        assert forall|i: int| 0 <= i < n - 1 implies #[trigger] s.skip(1)[i] != '\n' by {
            assert(s.skip(1)[i] == s[i + 1]);
        }
        if n - 1 < s.len() - 1 {
            assert(s.skip(1)[n - 1] == s[n]);
        }
        lemma_line_len_is(s.skip(1), n - 1);
    }
}

/// How reading one `key value` line goes.
pub enum PairStep {
    Pair(Seq<char>, Seq<char>),
    Refused(Refusal),
}

pub open spec fn no_value_msg(key: Seq<char>) -> Seq<char> {
    "got key "@ + debug_str(key) + " with no value"@
}

/// A trimmed line: a key word, whitespace, a value word, and nothing more.
pub open spec fn pair_read(line: Seq<char>) -> PairStep {
    match word_read(line, 0, seq![]) {
        WordStep::Refused(e) => PairStep::Refused(e),
        WordStep::Read(key, k) => {
            let rest = trim_start_spaces(line.skip(k));
            if rest.len() == 0 {
                PairStep::Refused(Refusal::ExpectedPair(no_value_msg(key)))
            } else {
                match word_read(rest, 0, seq![]) {
                    WordStep::Refused(e) => PairStep::Refused(e),
                    WordStep::Read(value, j) => {
                        let tail = trim_spaces(rest.skip(j));
                        if tail.len() > 0 {
                            PairStep::Refused(Refusal::TrailingContent(tail))
                        } else {
                            PairStep::Pair(key, value)
                        }
                    },
                }
            }
        },
    }
}

/// The lines in turn, blank ones skipped, each pair inserted as a map
/// inserts it.
pub open spec fn assoc_lines(lines: Seq<Seq<char>>, acc: Seq<(Seq<char>, Seq<char>)>) -> RawStep
    decreases lines.len(),
{
    if lines.len() == 0 {
        RawStep::Read(RawView::Entries(acc))
    } else {
        let line = trim_spaces(lines[0]);
        if line.len() == 0 {
            assoc_lines(lines.drop_first(), acc)
        } else {
            match pair_read(line) {
                PairStep::Refused(e) => RawStep::Refused(e),
                PairStep::Pair(k, v) => assoc_lines(lines.drop_first(), insert_entry(acc, k, v)),
            }
        }
    }
}

/// The per-line associative dump: each line `key value`, both `@Q` words.
pub open spec fn assoc_at_q(text: Seq<char>) -> RawStep {
    assoc_lines(lines_of(text), seq![])
}

/// One `key value` line.
fn read_pair(line: &str) -> (r: Result<(String, String), ParseError>)
    requires
        fits(line@),
    ensures
        match pair_read(line@) {
            PairStep::Pair(k, v) => r is Ok && r->Ok_0.0@ == k && r->Ok_0.1@ == v,
            PairStep::Refused(e) => r is Err && r->Err_0@ == e,
        },
{
    let (key, rest) = match parse_one_word(line) {
        Ok(p) => p,
        Err(e) => {
            return Err(e);
        },
    };
    let ghost k = line@.len() - rest@.len();
    proof {
        lemma_word_read_len(line@, 0, seq![]);
        lemma_fits_subrange(line@, k, line@.len() as int);
        assert(line@.subrange(k, line@.len() as int) =~= rest@);
    }
    let rest = trim_start(rest);
    proof {
        lemma_trim_start(line@.skip(k));
        let t = line@.skip(k);
        lemma_fits_subrange(t, t.len() - rest@.len(), t.len() as int);
        assert(t.subrange(t.len() - rest@.len(), t.len() as int) =~= rest@);
    }
    if rest.is_empty() {
        let mut message = owned("got key ");
        message.append(debug_quoted(key.as_str()).as_str());
        message.append(" with no value");
        return Err(ParseError::ExpectedPair(message));
    }
    let (value, tail) = match parse_one_word(rest) {
        Ok(p) => p,
        Err(e) => {
            return Err(e);
        },
    };
    let tail = trim(tail);
    if !tail.is_empty() {
        return Err(ParseError::TrailingContent(owned(tail)));
    }
    Ok((key, value))
}

/// Where the line starting at `start` ends, and how the lines from there on
/// split into it and the rest.
fn line_end(chars: &Vec<char>, start: usize) -> (end: usize)
    requires
        start <= chars.len(),
    ensures
        start <= end <= chars.len(),
        lines_of(chars@.skip(start as int)) == (if end < chars.len() {
            seq![chars@.subrange(start as int, end as int)] + lines_of(chars@.skip(end + 1))
        } else {
            seq![chars@.subrange(start as int, end as int)]
        }),
{
    let ghost s = chars@;
    let mut end = start;
    while end < chars.len() && chars[end] != '\n'
        invariant
            start <= end <= chars.len(),
            chars@ == s,
            forall|i: int| start <= i < end ==> #[trigger] s[i] != '\n',
        decreases chars.len() - end,
    {
        end = end + 1;
    }
    let ghost rest = s.skip(start as int);
    proof {
        assert forall|i: int| 0 <= i < end - start implies #[trigger] rest[i] != '\n' by {
            assert(rest[i] == s[start + i]);
        }
        if end < chars.len() {
            assert(rest[end - start] == s[end as int]);
        }
        lemma_line_len_is(rest, end - start);
        assert(rest.take(end - start) =~= s.subrange(start as int, end as int));
        if end < chars.len() {
            assert(rest.skip(end - start + 1) =~= s.skip(end + 1));
        } else {
            assert(rest =~= s.subrange(start as int, end as int));
        }
    }
    end
}

/// Reading the lines goes on past the first as the first says.
proof fn lemma_assoc_lines_step(l: Seq<char>, rest: Seq<Seq<char>>, acc: Seq<(Seq<char>, Seq<char>)>)
    ensures
        assoc_lines(seq![l] + rest, acc) == (if trim_spaces(l).len() == 0 {
            assoc_lines(rest, acc)
        } else {
            match pair_read(trim_spaces(l)) {
                PairStep::Refused(e) => RawStep::Refused(e),
                PairStep::Pair(k, v) => assoc_lines(rest, insert_entry(acc, k, v)),
            }
        }),
{
    let lines = seq![l] + rest;
    assert(lines[0] == l);
    assert(lines.drop_first() =~= rest);
}

impl BashRaw {
    /// The per-line associative dump: each line `key value`, both `@Q`
    /// words; blank lines are skipped, and a key met again keeps its place
    /// and takes the new value.
    pub fn parse_assoc_at_q(input: &str) -> (r: Result<Self, ParseError>)
        requires
            fits(input@),
        ensures
            raw_outcome(r, assoc_at_q(input@)),
    {
        let chars = chars_of(input);
        let ghost s = input@;
        let mut map = new_assoc();
        let mut start: usize = 0;
        assert(s.skip(0) =~= s);
        loop
            invariant
                chars@ == s,
                s == input@,
                fits(s),
                start <= chars.len(),
                assoc_at_q(s) == assoc_lines(lines_of(s.skip(start as int)), assoc_entries(map)),
                distinct_keys(assoc_entries(map)),
            decreases chars.len() - start,
        {
            let end = line_end(&chars, start);
            let line = input.substring_char(start, end);
            let trimmed = trim(line);
            let ghost l = line@;
            let ghost entries = assoc_entries(map);
            let ghost after = if end < chars.len() {
                lines_of(s.skip(end + 1))
            } else {
                Seq::<Seq<char>>::empty()
            };
            proof {
                lemma_fits_subrange(s, start as int, end as int);
                lemma_trim_is_subrange(l);
                let (a, b) = trim_bounds(l);
                lemma_fits_subrange(l, a, b);
                if end >= chars.len() {
                    assert(seq![l] + after =~= seq![l]);
                }
                lemma_assoc_lines_step(l, after, entries);
            }
            if !trimmed.is_empty() {
                let (key, value) = match read_pair(trimmed) {
                    Ok(p) => p,
                    Err(e) => {
                        return Err(e);
                    },
                };
                insert_assoc(&mut map, key, value);
            }
            if end >= chars.len() {
                return Ok(BashRaw::AssocArray(map));
            }
            start = end + 1;
        }
    }
}

// ---- what the readers give back of what the writers write --------------------------

/// An encoded word is at least two characters, starts with a quote or a
/// dollar sign, and ends with a quote.
proof fn lemma_encoded_shape(s: Seq<char>)
    ensures
        encoded(s).len() >= 2,
        encoded(s)[0] == '\'' || encoded(s)[0] == '$',
        encoded(s).last() == '\'',
{
}

/// Spaced items start as their first starts and end as their last ends.
proof fn lemma_spaced_ends(items: Seq<Seq<char>>)
    requires
        items.len() > 0,
        forall|i: int| 0 <= i < items.len() ==> (#[trigger] items[i]).len() > 0,
    ensures
        spaced(items).len() > 0,
        spaced(items)[0] == items[0][0],
        spaced(items).last() == items.last().last(),
    decreases items.len(),
{
    if items.len() > 1 {
        let rest = items.drop_first();
        assert forall|i: int| 0 <= i < rest.len() implies (#[trigger] rest[i]).len() > 0 by {
            assert(rest[i] == items[i + 1]);
        }
        lemma_spaced_ends(rest);
        assert(rest.last() == items.last());
    }
}

/// Words written by `encode_scalar` with one space between them read back.
proof fn lemma_spaced_encoded_reads(ws: Seq<Seq<char>>, acc: Seq<Seq<char>>)
    ensures
        words_read(spaced(encoded_words(ws)), acc) == WordsStep::Read(acc + ws),
    decreases ws.len(),
{
    let es = encoded_words(ws);
    if ws.len() == 0 {
        assert(acc + ws =~= acc);
    } else {
        let rest = ws.drop_first();
        let r = spaced(encoded_words(rest));
        assert(es.drop_first() =~= encoded_words(rest));
        let t = if ws.len() == 1 {
            Seq::<char>::empty()
        } else {
            seq![' '] + r
        };
        let e0 = encoded(ws[0]);
        assert(es[0] == e0);
        assert(spaced(es) == e0 + t);
        lemma_encoded_shape(ws[0]);
        lemma_encoded_word_reads(ws[0], t);
        let x = e0 + t;
        assert(x.skip(e0.len() as int) =~= t);
        if rest.len() > 0 {
            let rs = encoded_words(rest);
            assert forall|i: int| 0 <= i < rs.len() implies (#[trigger] rs[i]).len() > 0 by {
                lemma_encoded_shape(rest[i]);
            }
            lemma_spaced_ends(rs);
            lemma_encoded_shape(rest[0]);
            assert(t.drop_first() =~= r);
            assert(trim_start_spaces(r) == r);
        } else {
            assert(r =~= Seq::<char>::empty());
            if ws.len() > 1 {
                assert(t.drop_first() =~= r);
            }
        }
        assert(trim_start_spaces(t) == r) by {
            if ws.len() == 1 {
                assert(t =~= r);
            }
        }
        lemma_spaced_encoded_reads(rest, acc.push(ws[0]));
        assert(acc.push(ws[0]) + rest =~= acc + ws);
    }
}

/// The trimmed text is itself where it starts and ends with no whitespace.
proof fn lemma_trim_unspaced(x: Seq<char>)
    requires
        x.len() > 0,
        !is_space(x[0]),
        !is_space(x.last()),
    ensures
        trim_spaces(x) == x,
{
    assert(trim_start_spaces(x) == x);
    assert(trim_end_spaces(x) == x);
}

/// `parse_string_at_q(encode_scalar(s))` gives `s` back.
pub proof fn law_string_at_q_round_trip(s: Seq<char>)
    ensures
        string_at_q(encoded(s)) == RawStep::Read(RawView::Scalar(s)),
{
    let x = encoded(s);
    lemma_encoded_shape(s);
    lemma_trim_unspaced(x);
    law_encode_round_trip(s);
    assert(x.skip(x.len() as int) =~= Seq::<char>::empty());
}

/// `parse_bash_literal_array(to_bash_literal(a))` gives an array back whole.
pub proof fn law_literal_array_round_trip(ws: Seq<Seq<char>>)
    ensures
        literal_array(raw_literal(RawView::Words(ws))) == RawStep::Read(RawView::Words(ws)),
{
    let es = encoded_words(ws);
    let body = spaced(es);
    let x = raw_literal(RawView::Words(ws));
    assert(x == seq!['('] + body + seq![')']);
    lemma_trim_unspaced(x);
    assert(x.subrange(1, x.len() - 1) =~= body);
    if ws.len() > 0 {
        assert forall|i: int| 0 <= i < es.len() implies (#[trigger] es[i]).len() > 0 by {
            lemma_encoded_shape(ws[i]);
        }
        lemma_spaced_ends(es);
        lemma_encoded_shape(ws[0]);
        lemma_encoded_shape(ws.last());
        assert(es.last() == encoded(ws.last()));
        lemma_trim_unspaced(body);
    } else {
        assert(body =~= Seq::<char>::empty());
    }
    lemma_spaced_encoded_reads(ws, seq![]);
    assert(Seq::<Seq<char>>::empty() + ws =~= ws);
}

/// One entry `[k]=v`, where the text ends or a space follows it, reads as
/// itself and the reading goes on after it.
#[verifier::spinoff_prover]
#[verifier::rlimit(40)]
proof fn lemma_entry_reads(
    k: Seq<char>,
    v: Seq<char>,
    t: Seq<char>,
    acc: Seq<(Seq<char>, Seq<char>)>,
)
    requires
        t.len() == 0 || t[0] == ' ',
        forall|i: int| 0 <= i < acc.len() ==> acc[i].0 != k,
    ensures
        assoc_literal_read(raw_entry(k, v) + t, acc) == assoc_literal_read(t, acc.push((k, v))),
{
    let x = raw_entry(k, v) + t;
    assert(x[0] == '[');
    assert(trim_start_spaces(x) == x);
    let tail = seq![']', '='] + encoded(v) + t;
    let body = x.skip(1);
    assert(body =~= encoded(k) + tail);
    lemma_encoded_word_reads(k, tail);
    let j = encoded(k).len() as int;
    assert(word_read(body, 0, seq![]) == WordStep::Read(k, j));
    assert(body.skip(j) =~= tail);
    let vv = tail.skip(2);
    assert(vv =~= encoded(v) + t);
    lemma_encoded_word_reads(v, t);
    let m = encoded(v).len() as int;
    assert(word_read(vv, 0, seq![]) == WordStep::Read(v, m));
    assert(vv.skip(m) =~= t);
    lemma_key_index_absent(acc, k);
    assert(insert_entry(acc, k, v) == acc.push((k, v)));
}

/// Entries written `[k]=v`, one space apart, read back in order, where no key
/// stands twice in what was read before them and in them.
proof fn lemma_spaced_entries_read(
    es: Seq<(Seq<char>, Seq<char>)>,
    acc: Seq<(Seq<char>, Seq<char>)>,
)
    requires
        distinct_keys(acc + es),
    ensures
        assoc_literal_read(spaced(encoded_entries(es)), acc) == RawStep::Read(
            RawView::Entries(acc + es),
        ),
    decreases es.len(),
{
    let xs = encoded_entries(es);
    if es.len() == 0 {
        assert(spaced(xs) =~= Seq::<char>::empty());
        assert(acc + es =~= acc);
    } else {
        let rest = es.drop_first();
        let r = spaced(encoded_entries(rest));
        assert(xs.drop_first() =~= encoded_entries(rest));
        let t = if es.len() == 1 {
            Seq::<char>::empty()
        } else {
            seq![' '] + r
        };
        let k = es[0].0;
        let v = es[0].1;
        assert(xs[0] == raw_entry(k, v));
        assert(spaced(xs) == raw_entry(k, v) + t);
        let all = acc + es;
        assert forall|i: int| 0 <= i < acc.len() implies acc[i].0 != k by {
            assert(all[i] == acc[i]);
            assert(all[acc.len() as int] == es[0]);
        }
        lemma_entry_reads(k, v, t, acc);
        let acc2 = acc.push((k, v));
        assert(acc2 + rest =~= all);
        lemma_spaced_entries_read(rest, acc2);
        if rest.len() > 0 {
            let rs = encoded_entries(rest);
            assert forall|i: int| 0 <= i < rs.len() implies (#[trigger] rs[i]).len() > 0 by {
                assert(rs[i] == raw_entry(rest[i].0, rest[i].1));
            }
            lemma_spaced_ends(rs);
            assert(rs[0] == raw_entry(rest[0].0, rest[0].1));
            assert(t.drop_first() =~= r);
            assert(trim_start_spaces(r) == r);
            assert(trim_start_spaces(t) == r);
        } else {
            assert(r =~= Seq::<char>::empty());
            assert(t =~= r);
        }
        assert(assoc_literal_read(t, acc2) == assoc_literal_read(r, acc2));
    }
}

/// `parse_bash_literal(to_bash_literal(r))` gives `r` back: a string, an
/// array, and an associative array with at least one entry. An empty one is
/// written `()`, as an empty array is, and reads back as the empty array.
pub proof fn law_literal_round_trip(v: RawView)
    requires
        match v {
            RawView::Entries(es) => distinct_keys(es) && es.len() > 0,
            _ => true,
        },
    ensures
        literal_value(raw_literal(v)) == RawStep::Read(v),
{
    match v {
        RawView::Scalar(s) => {
            lemma_encoded_shape(s);
            lemma_trim_unspaced(encoded(s));
            law_string_at_q_round_trip(s);
        },
        RawView::Words(ws) => {
            law_literal_array_round_trip(ws);
            let x = raw_literal(v);
            lemma_trim_unspaced(x);
            let inner = x.subrange(1, x.len() - 1);
            let es = encoded_words(ws);
            assert(inner =~= spaced(es));
            if ws.len() > 0 {
                assert forall|i: int| 0 <= i < es.len() implies (#[trigger] es[i]).len() > 0 by {
                    lemma_encoded_shape(ws[i]);
                }
                lemma_spaced_ends(es);
                lemma_encoded_shape(ws[0]);
                assert(trim_start_spaces(inner) == inner);
            } else {
                assert(inner =~= Seq::<char>::empty());
            }
        },
        RawView::Entries(es) => {
            let x = raw_literal(v);
            let xs = encoded_entries(es);
            assert forall|i: int| 0 <= i < xs.len() implies (#[trigger] xs[i]).len() > 0 by {
                assert(xs[i] == raw_entry(es[i].0, es[i].1));
            }
            lemma_spaced_ends(xs);
            assert(xs[0] == raw_entry(es[0].0, es[0].1));
            assert(xs.last() == raw_entry(es.last().0, es.last().1));
            lemma_encoded_shape(es.last().1);
            lemma_trim_unspaced(x);
            let inner = x.subrange(1, x.len() - 1);
            assert(inner =~= spaced(xs));
            assert(trim_start_spaces(inner) == inner);
            lemma_spaced_entries_read(es, seq![]);
            assert(Seq::<(Seq<char>, Seq<char>)>::empty() + es =~= es);
        },
    }
}

/// `unpack_from_string(pack_as_string(r))` gives `r` back: any shape packs
/// into one word and unpacks as itself, but an empty associative array,
/// which unpacks as the empty array.
pub proof fn law_pack_round_trip(v: RawView)
    requires
        match v {
            RawView::Entries(es) => distinct_keys(es) && es.len() > 0,
            _ => true,
        },
    ensures
        unpacked(encoded(raw_literal(v))) == RawStep::Read(v),
{
    law_string_at_q_round_trip(raw_literal(v));
    law_literal_round_trip(v);
}

} // verus!
