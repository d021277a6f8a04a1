//! A variable's `@Q` output read by the type bash declared it with, and its
//! value written back as the right-hand side of an assignment.

use vstd::prelude::*;

use crate::index_map::assoc_entries;
use crate::parser::{lemma_trim_is_subrange, trim, trim_bounds, trim_spaces, views};
use crate::primitives::{encode_scalar, ParseError};
use crate::raw::{
    array_at_q, array_literal, assoc_at_q, assoc_literal, raw_literal, raw_wf, string_at_q, BashRaw,
    RawStep, RawView,
};
use crate::text::{fits, lemma_fits_subrange};
use indexmap::IndexMap;

verus! {

/// The type a variable was declared with.
#[derive(Debug, Clone, Copy, PartialEq, Eq)]
pub enum BashType {
    Scalar,
    IndexedArray,
    AssocArray,
}

/// A variable's value, in the shape its type gives it.
#[derive(Debug, PartialEq)]
pub enum BashValue {
    String(String),
    IndexedArray(Vec<String>),
    AssocArray(IndexMap<String, String>),
}

impl View for BashValue {
    type V = RawView;

    open spec fn view(&self) -> RawView {
        match self {
            BashValue::String(s) => RawView::Scalar(s@),
            BashValue::IndexedArray(v) => RawView::Words(views(v@)),
            BashValue::AssocArray(m) => RawView::Entries(assoc_entries(*m)),
        }
    }
}

/// What the `@Q` output of a variable of type `t` reads as: the text is
/// trimmed, then read as one word, as words, or as `key value` lines.
pub open spec fn typed_read(t: BashType, text: Seq<char>) -> RawStep {
    let input = trim_spaces(text);
    match t {
        BashType::Scalar => string_at_q(input),
        BashType::IndexedArray => array_at_q(input),
        BashType::AssocArray => assoc_at_q(input),
    }
}

/// What a reader returning a value did, against what the text reads as.
pub open spec fn value_outcome(r: Result<BashValue, ParseError>, s: RawStep) -> bool {
    match s {
        RawStep::Read(v) => r is Ok && r->Ok_0@ == v && raw_wf(v),
        RawStep::Refused(e) => r is Err && r->Err_0@ == e,
    }
}

/// Interpret a variable's `@Q` output by its declared type:
///
/// - `Scalar`: one quoted word, from `echo "${var@Q}"`;
/// - `IndexedArray`: quoted words separated by whitespace, from
///   `echo "${arr[@]@Q}"`;
/// - `AssocArray`: one `key value` line per entry, both quoted words; a key
///   met again keeps its place and takes the new value.
pub fn parse_typed_value(bash_type: BashType, input: &str) -> (r: Result<BashValue, ParseError>)
    requires
        fits(input@),
    ensures
        value_outcome(r, typed_read(bash_type, input@)),
{
    let text = trim(input);
    proof {
        lemma_trim_is_subrange(input@);
        let (a, b) = trim_bounds(input@);
        lemma_fits_subrange(input@, a, b);
    }
    let raw = match bash_type {
        BashType::Scalar => BashRaw::parse_string_at_q(text),
        BashType::IndexedArray => BashRaw::parse_array_at_q(text),
        BashType::AssocArray => BashRaw::parse_assoc_at_q(text),
    };
    match raw {
        Ok(BashRaw::String(s)) => Ok(BashValue::String(s)),
        Ok(BashRaw::Array(v)) => Ok(BashValue::IndexedArray(v)),
        Ok(BashRaw::AssocArray(m)) => Ok(BashValue::AssocArray(m)),
        Err(e) => Err(e),
    }
}

impl BashValue {
    /// The value as the right-hand side of an assignment: `'hello'`,
    /// `('a' 'b')`, `(['k']='v')`.
    pub fn to_bash(&self) -> (out: String)
        ensures
            out@ == raw_literal(self@),
    {
        match self {
            BashValue::String(s) => encode_scalar(s.as_str()),
            BashValue::IndexedArray(v) => array_literal(v),
            BashValue::AssocArray(m) => assoc_literal(m),
        }
    }
}

} // verus!
