//! Recursive values, and the two ways to flatten one into bash words.
//!
//! `BashVal` is a tree of strings and `Schema` its depth. Bash arrays are
//! flat, so nesting is encoded textually:
//!
//! - [`QuotedNest`] — each inner array is one bash-literal word at the outer
//!   level: `[[a,b],[c]] → ["('a' 'b')", "('c')"]`. The receiver unquotes one
//!   layer per level.
//!
//! - [`LinkedArr`] — one flat word stream, each group prefixed by its width:
//!   `[[a,b],[c]] → [2, a, b, 1, c]`.
//!
//! Emitting takes the depth from the value; parsing takes it from a `Schema`,
//! which is what the text alone does not say. Scalar leaves are raw strings —
//! bash quoting is applied by [`emit_q_words`](crate::emit_q_words) when an
//! array literal is built.

use vstd::prelude::*;

use crate::emit::{array_text, decimal_string, decimal_text, emit_array, push_decimal};
use crate::error::ParseError;
use crate::grammar::{decimal_value, is_digit};
use crate::parser::{
    decimal_number, lemma_decimal_nonneg, lemma_q_words_short, lemma_trim_is_subrange,
    parse_q_words, q_words_spec, trim, trim_newlines, trim_spaces, views,
};
use crate::quoting::owned;
use crate::text::{chars_of, debug_quoted, debug_str, fits_chars, lemma_fits_chars};

verus! {

/// A value as the contracts see it: a string, or an array of values.
pub enum Tree {
    Leaf(Seq<char>),
    Node(Seq<Tree>),
}

/// A value of any depth: a string, or an array of values.
#[derive(Debug, PartialEq)]
pub enum BashVal {
    Str(String),
    Arr(Vec<BashVal>),
}

/// How deep a value is: a string, or an array of values one level less deep.
#[derive(Debug, PartialEq)]
pub enum Schema {
    Scalar,
    Arr(Box<Schema>),
}

impl BashVal {
    /// The value as a tree of character sequences.
    pub open spec fn tree(&self) -> Tree
        decreases self,
    {
        match self {
            BashVal::Str(s) => Tree::Leaf(s@),
            BashVal::Arr(items) => Tree::Node(
                Seq::new(
                    items.len() as nat,
                    |i: int|
                        if 0 <= i < items.len() {
                            items[i].tree()
                        } else {
                            Tree::Leaf(Seq::empty())
                        },
                ),
            ),
        }
    }
}

impl Clone for Schema {
    /// An equal schema.
    fn clone(&self) -> (r: Self)
        ensures
            r == *self,
        decreases self,
    {
        match self {
            Schema::Scalar => Schema::Scalar,
            Schema::Arr(inner) => {
                proof {
                    assert(decreases_to!(*self => (*self)->Arr_0));
                }
                let copy: Schema = (**inner).clone();
                Schema::Arr(Box::new(copy))
            },
        }
    }
}

impl Clone for BashVal {
    /// A copy with the same strings in the same places.
    fn clone(&self) -> (r: Self)
        ensures
            r.tree() == self.tree(),
        decreases self,
    {
        match self {
            BashVal::Str(s) => BashVal::Str(s.clone()),
            BashVal::Arr(items) => {
                let mut out: Vec<BashVal> = Vec::new();
                let mut i: usize = 0;
                while i < items.len()
                    invariant
                        i <= items.len(),
                        *self == BashVal::Arr(*items),
                        out.len() == i,
                        forall|j: int| 0 <= j < i ==> (#[trigger] out@[j]).tree() == items@[j].tree(),
                    decreases items.len() - i,
                {
                    proof {
                        assert(decreases_to!(*self => (*self)->Arr_0));
                        assert(decreases_to!(*items => items[i as int]));
                    }
                    let item = items[i].clone();
                    out.push(item);
                    i = i + 1;
                }
                proof {
                    lemma_arr_tree(out);
                    lemma_arr_tree(*items);
                    assert(trees(out@) =~= trees(items@));
                }
                BashVal::Arr(out)
            },
        }
    }
}

impl From<String> for BashVal {
    fn from(s: String) -> (v: Self) {
        BashVal::Str(s)
    }
}

impl vstd::std_specs::convert::FromSpecImpl<String> for BashVal {
    open spec fn obeys_from_spec() -> bool {
        true
    }

    open spec fn from_spec(s: String) -> Self {
        BashVal::Str(s)
    }
}

/// The trees of a sequence of values.
pub open spec fn trees(v: Seq<BashVal>) -> Seq<Tree> {
    Seq::new(v.len(), |i: int| v[i].tree())
}

/// An array's tree is the trees of its items.
pub proof fn lemma_arr_tree(items: Vec<BashVal>)
    ensures
        BashVal::Arr(items).tree() == Tree::Node(trees(items@)),
{
    assert(BashVal::Arr(items).tree()->Node_0 =~= trees(items@));
}

/// Strings as leaves.
pub open spec fn leaves(ws: Seq<Seq<char>>) -> Seq<Tree> {
    Seq::new(ws.len(), |i: int| Tree::Leaf(ws[i]))
}

/// The words of a one-dimensional tree; `None` for any other shape.
pub open spec fn words_of(t: Tree) -> Option<Seq<Seq<char>>> {
    match t {
        Tree::Node(items) => if forall|i: int| 0 <= i < items.len() ==> #[trigger] items[i] is Leaf {
            Some(Seq::new(items.len(), |i: int| items[i]->Leaf_0))
        } else {
            None
        },
        Tree::Leaf(_) => None,
    }
}

/// The rows of a two-dimensional tree; `None` for any other shape.
pub open spec fn rows_of(t: Tree) -> Option<Seq<Seq<Seq<char>>>> {
    match t {
        Tree::Node(rows) => if forall|i: int| 0 <= i < rows.len() ==> #[trigger] words_of(rows[i]) is Some {
            Some(Seq::new(rows.len(), |i: int| words_of(rows[i])->Some_0))
        } else {
            None
        },
        Tree::Leaf(_) => None,
    }
}

/// A tree of exactly depth `d`: a string at depth zero, above that an array
/// whose every item has depth `d - 1`.
pub open spec fn conforms(t: Tree, d: nat) -> bool
    decreases t,
{
    match t {
        Tree::Leaf(_) => d == 0,
        Tree::Node(items) => d > 0 && all_conform(items, (d - 1) as nat),
    }
}

/// Every item has depth `d`.
pub open spec fn all_conform(items: Seq<Tree>, d: nat) -> bool
    decreases items,
{
    if items.len() == 0 {
        true
    } else {
        all_conform(items.drop_last(), d) && conforms(items.last(), d)
    }
}

impl Schema {
    /// How many levels of arrays the schema has.
    pub open spec fn depth(&self) -> nat
        decreases self,
    {
        match self {
            Schema::Scalar => 0,
            Schema::Arr(inner) => 1 + inner.depth(),
        }
    }

    /// `n` levels of arrays around a scalar: `n_d(2) == Arr(Arr(Scalar))`.
    pub fn n_d(n: usize) -> (s: Self)
        ensures
            s.depth() == n,
    {
        let mut schema = Schema::Scalar;
        let mut i: usize = 0;
        while i < n
            invariant
                i <= n,
                schema.depth() == i,
            decreases n - i,
        {
            schema = Schema::Arr(Box::new(schema));
            i = i + 1;
        }
        schema
    }

    /// One level: an array of strings.
    pub fn one_d() -> (s: Self)
        ensures
            s.depth() == 1,
    {
        assert(Schema::Scalar.depth() == 0);
        Schema::Arr(Box::new(Schema::Scalar))
    }

    /// Two levels: an array of arrays of strings.
    pub fn two_d() -> (s: Self)
        ensures
            s.depth() == 2,
    {
        Schema::Arr(Box::new(Self::one_d()))
    }
}

impl BashVal {
    /// One flat row of words.
    pub fn row(words: Vec<String>) -> (v: Self)
        ensures
            v.tree() == Tree::Node(leaves(views(words@))),
    {
        let mut items: Vec<BashVal> = Vec::new();
        let mut i: usize = 0;
        while i < words.len()
            invariant
                i <= words.len(),
                items.len() == i,
                trees(items@) == leaves(views(words@.take(i as int))),
            decreases words.len() - i,
        {
            let ghost before = items@;
            items.push(BashVal::Str(words[i].clone()));
            proof {
                assert(items@[i as int].tree() == Tree::Leaf(words@[i as int]@));
                assert forall|j: int| 0 <= j < i + 1 implies #[trigger] trees(items@)[j] == leaves(
                    views(words@.take(i + 1)),
                )[j] by {
                    if j < i {
                        assert(items@[j] == before[j]);
                        assert(trees(before)[j] == leaves(views(words@.take(i as int)))[j]);
                    }
                }
                assert(trees(items@) =~= leaves(views(words@.take(i + 1))));
            }
            i = i + 1;
        }
        proof {
            assert(words@.take(words.len() as int) =~= words@);
            lemma_arr_tree(items);
        }
        BashVal::Arr(items)
    }

    /// A flat row of words, as a command line is one.
    pub fn cmd(args: Vec<String>) -> (v: Self)
        ensures
            v.tree() == Tree::Node(leaves(views(args@))),
    {
        Self::row(args)
    }

    /// A string.
    pub fn s(text: String) -> (v: Self)
        ensures
            v.tree() == Tree::Leaf(text@),
    {
        BashVal::Str(text)
    }

    /// An empty array.
    pub fn arr() -> (v: Self)
        ensures
            v.tree() == Tree::Node(Seq::<Tree>::empty()),
    {
        let items: Vec<BashVal> = Vec::new();
        proof {
            lemma_arr_tree(items);
            assert(trees(items@) =~= Seq::<Tree>::empty());
        }
        BashVal::Arr(items)
    }

    /// The array with `v` added at its end. A string has no end to add to.
    pub fn push(self, v: BashVal) -> (r: Self)
        requires
            self is Arr,
        ensures
            r.tree() == Tree::Node(self.tree()->Node_0.push(v.tree())),
    {
        match self {
            BashVal::Arr(items) => {
                let mut items = items;
                let ghost before = items@;
                proof {
                    lemma_arr_tree(items);
                }
                items.push(v);
                proof {
                    lemma_arr_tree(items);
                    assert(trees(items@) =~= trees(before).push(v.tree()));
                }
                BashVal::Arr(items)
            },
            // A string is excluded by the precondition.
            other => other,
        }
    }

    /// The words of a one-dimensional value; `None` if it is any other shape.
    pub fn words(self) -> (r: Option<Vec<String>>)
        ensures
            match words_of(self.tree()) {
                Some(ws) => r is Some && views(r->Some_0@) == ws,
                None => r is None,
            },
    {
        words_in(&self)
    }

    /// The rows of a two-dimensional value; `None` if it is any other shape.
    pub fn rows(self) -> (r: Option<Vec<Vec<String>>>)
        ensures
            match rows_of(self.tree()) {
                Some(rs) => r is Some && r->Some_0@.len() == rs.len() && forall|i: int|
                    0 <= i < rs.len() ==> views(#[trigger] r->Some_0@[i]@) == rs[i],
                None => r is None,
            },
    {
        match &self {
            BashVal::Str(_) => None,
            BashVal::Arr(rows) => {
                proof {
                    lemma_arr_tree(*rows);
                }
                let ghost ts = trees(rows@);
                let mut out: Vec<Vec<String>> = Vec::new();
                let mut i: usize = 0;
                while i < rows.len()
                    invariant
                        i <= rows.len(),
                        ts == trees(rows@),
                        self.tree() == Tree::Node(ts),
                        forall|j: int| 0 <= j < i ==> #[trigger] words_of(ts[j]) is Some,
                        out.len() == i,
                        forall|j: int|
                            0 <= j < i ==> views(#[trigger] out@[j]@) == words_of(ts[j])->Some_0,
                    decreases rows.len() - i,
                {
                    match words_in(&rows[i]) {
                        Some(ws) => {
                            out.push(ws);
                        },
                        None => {
                            assert(self.tree() == Tree::Node(ts));
                            assert(!(words_of(ts[i as int]) is Some));
                            return None;
                        },
                    }
                    i = i + 1;
                }
                proof {
                    assert(self.tree() == Tree::Node(ts));
                }
                Some(out)
            },
        }
    }
}

/// The words of a one-dimensional value, read in place.
fn words_in(v: &BashVal) -> (r: Option<Vec<String>>)
    ensures
        match words_of(v.tree()) {
            Some(ws) => r is Some && views(r->Some_0@) == ws,
            None => r is None,
        },
{
    match v {
        BashVal::Str(_) => None,
        BashVal::Arr(items) => {
            proof {
                lemma_arr_tree(*items);
            }
            let ghost ts = trees(items@);
            let mut out: Vec<String> = Vec::new();
            let mut i: usize = 0;
            while i < items.len()
                invariant
                    i <= items.len(),
                    ts == trees(items@),
                    v.tree() == Tree::Node(ts),
                    forall|j: int| 0 <= j < i ==> #[trigger] ts[j] is Leaf,
                    out.len() == i,
                    forall|j: int| 0 <= j < i ==> #[trigger] out@[j]@ == ts[j]->Leaf_0,
                decreases items.len() - i,
            {
                match &items[i] {
                    BashVal::Str(w) => {
                        out.push(w.clone());
                    },
                    BashVal::Arr(_) => {
                        assert(v.tree() == Tree::Node(ts));
                        assert(!(ts[i as int] is Leaf));
                        return None;
                    },
                }
                i = i + 1;
            }
            proof {
                assert(views(out@) =~= Seq::new(ts.len(), |j: int| ts[j]->Leaf_0));
            }
            Some(out)
        },
    }
}

// ---- flattening ------------------------------------------------------------

/// Whether an array's items are groups: an array's first item decides it.
pub open spec fn grouped(items: Seq<Tree>) -> bool {
    items.len() > 0 && items[0] is Node
}

/// The words `LinkedArr` flattens a tree to.
pub open spec fn la_words(t: Tree) -> Seq<Seq<char>>
    decreases t,
{
    match t {
        Tree::Leaf(w) => seq![w],
        Tree::Node(items) => la_items(items, grouped(items)),
    }
}

/// Each item's words in turn, prefixed by their count where the items are
/// groups.
pub open spec fn la_items(items: Seq<Tree>, nested: bool) -> Seq<Seq<char>>
    decreases items,
{
    if items.len() == 0 {
        seq![]
    } else {
        let body = la_words(items.last());
        la_items(items.drop_last(), nested) + (if nested {
            seq![decimal_text(body.len())]
        } else {
            seq![]
        }) + body
    }
}

/// The words `QuotedNest` flattens a tree to.
pub open spec fn qn_words(t: Tree) -> Seq<Seq<char>> {
    match t {
        Tree::Leaf(w) => seq![w],
        Tree::Node(items) => qn_items(items),
    }
}

/// One word per item.
pub open spec fn qn_items(items: Seq<Tree>) -> Seq<Seq<char>>
    decreases items,
{
    if items.len() == 0 {
        seq![]
    } else {
        qn_items(items.drop_last()).push(qn_word(items.last()))
    }
}

/// An item as one word: a string as itself, an array as its literal.
pub open spec fn qn_word(t: Tree) -> Seq<char>
    decreases t,
{
    match t {
        Tree::Leaf(w) => w,
        Tree::Node(items) => array_text(qn_items(items)),
    }
}

fn la_emit(val: &BashVal) -> (out: Vec<String>)
    ensures
        views(out@) == la_words(val.tree()),
    decreases val,
{
    match val {
        BashVal::Str(word) => {
            let mut out: Vec<String> = Vec::new();
            out.push(word.clone());
            assert(views(out@) =~= seq![word@]);
            out
        },
        BashVal::Arr(items) => {
            proof {
                lemma_arr_tree(*items);
            }
            let ghost ts = trees(items@);
            let nested = items.len() > 0 && matches!(items[0], BashVal::Arr(_));
            assert(nested == grouped(ts));
            let mut out: Vec<String> = Vec::new();
            let mut i: usize = 0;
            assert(ts.take(0) =~= Seq::<Tree>::empty());
            assert(views(out@) =~= Seq::<Seq<char>>::empty());
            while i < items.len()
                invariant
                    i <= items.len(),
                    *val == BashVal::Arr(*items),
                    ts == trees(items@),
                    nested == grouped(ts),
                    views(out@) == la_items(ts.take(i as int), nested),
                decreases items.len() - i,
            {
                proof {
                    assert(decreases_to!(*val => (*val)->Arr_0));
                    assert(decreases_to!(*items => items[i as int]));
                }
                let mut body = la_emit(&items[i]);
                let ghost before = views(out@);
                let ghost words = views(body@);
                if nested {
                    out.push(decimal_string(body.len()));
                }
                out.append(&mut body);
                proof {
                    assert(ts.take(i + 1).drop_last() =~= ts.take(i as int));
                    let pre = if nested {
                        seq![decimal_text(words.len())]
                    } else {
                        Seq::<Seq<char>>::empty()
                    };
                    assert(views(out@) =~= before + pre + words);
                }
                i = i + 1;
            }
            proof {
                assert(ts.take(items.len() as int) =~= ts);
            }
            out
        },
    }
}

fn qn_emit(val: &BashVal) -> (out: Vec<String>)
    ensures
        views(out@) == qn_words(val.tree()),
    decreases val,
{
    match val {
        BashVal::Str(word) => {
            let mut out: Vec<String> = Vec::new();
            out.push(word.clone());
            assert(views(out@) =~= seq![word@]);
            out
        },
        BashVal::Arr(items) => {
            proof {
                lemma_arr_tree(*items);
            }
            let ghost ts = trees(items@);
            let mut out: Vec<String> = Vec::new();
            let mut i: usize = 0;
            assert(ts.take(0) =~= Seq::<Tree>::empty());
            assert(views(out@) =~= Seq::<Seq<char>>::empty());
            while i < items.len()
                invariant
                    i <= items.len(),
                    *val == BashVal::Arr(*items),
                    ts == trees(items@),
                    views(out@) == qn_items(ts.take(i as int)),
                decreases items.len() - i,
            {
                let word = match &items[i] {
                    BashVal::Str(w) => w.clone(),
                    BashVal::Arr(_) => {
                        proof {
                            assert(decreases_to!(*val => (*val)->Arr_0));
                            assert(decreases_to!(*items => items[i as int]));
                        }
                        let inner = qn_emit(&items[i]);
                        emit_array(inner.as_slice())
                    },
                };
                let ghost before = views(out@);
                out.push(word);
                proof {
                    assert(word@ == qn_word(ts[i as int]));
                    assert(ts.take(i + 1).drop_last() =~= ts.take(i as int));
                    assert(views(out@) =~= before.push(word@));
                }
                i = i + 1;
            }
            proof {
                assert(ts.take(items.len() as int) =~= ts);
            }
            out
        },
    }
}

// ---- refusals ----------------------------------------------------------------

/// Why a word stream or a literal did not read as a value.
#[derive(Debug, Clone, PartialEq)]
pub enum CodecParseError {
    /// The words are not laid out as the schema says.
    LayoutError(String),
    /// A scalar was wanted and the words were not exactly one.
    ExpectedScalar,
    /// A literal's words did not read.
    Word(ParseError),
}

impl CodecParseError {
    /// How the refusal reads to a person.
    pub open spec fn text(&self) -> Seq<char> {
        match self {
            CodecParseError::LayoutError(what) => "layout: "@ + what@,
            CodecParseError::ExpectedScalar => "schema requires Scalar; got multiple words"@,
            CodecParseError::Word(cause) => "word: "@ + cause.text(),
        }
    }

    /// The refusal as a person reads it.
    pub fn describe(&self) -> (s: String)
        ensures
            s@ == self.text(),
    {
        match self {
            CodecParseError::LayoutError(what) => {
                let mut s = owned("layout: ");
                s.append(what.as_str());
                s
            },
            CodecParseError::ExpectedScalar => owned("schema requires Scalar; got multiple words"),
            CodecParseError::Word(cause) => {
                let mut s = owned("word: ");
                s.append(cause.describe().as_str());
                s
            },
        }
    }
}

impl From<ParseError> for CodecParseError {
    fn from(cause: ParseError) -> (e: Self) {
        CodecParseError::Word(cause)
    }
}

impl vstd::std_specs::convert::FromSpecImpl<ParseError> for CodecParseError {
    open spec fn obeys_from_spec() -> bool {
        true
    }

    open spec fn from_spec(cause: ParseError) -> Self {
        CodecParseError::Word(cause)
    }
}

/// A refusal as the contracts see it. A word refusal is the text it was
/// reported against, the character it stopped at, and its message.
pub enum Fault {
    Layout(Seq<char>),
    ExpectedScalar,
    Word(Seq<char>, int, Seq<char>),
}

/// `e` is the refusal `f`.
pub open spec fn fault_is(e: CodecParseError, f: Fault) -> bool {
    match f {
        Fault::Layout(m) => e is LayoutError && e->LayoutError_0@ == m,
        Fault::ExpectedScalar => e is ExpectedScalar,
        Fault::Word(text, k, m) => e is Word && e->Word_0.reports(text, k, m),
    }
}

/// What a reader returning a value did, against what the value reads as.
pub open spec fn codec_outcome(r: Result<BashVal, CodecParseError>, s: Result<Tree, Fault>) -> bool {
    match s {
        Ok(t) => r is Ok && r->Ok_0.tree() == t,
        Err(f) => r is Err && fault_is(r->Err_0, f),
    }
}

/// Every word fits at four bytes a character.
pub open spec fn all_fit(ws: Seq<Seq<char>>) -> bool {
    forall|i: int| 0 <= i < ws.len() ==> fits_chars(#[trigger] ws[i])
}

pub open spec fn literal_msg(t: Seq<char>) -> Seq<char> {
    "expected (...) array literal: "@ + debug_str(t)
}

pub open spec fn shape_msg(wanted: Seq<char>, input: Seq<char>) -> Seq<char> {
    "expected "@ + wanted + ": "@ + debug_str(input)
}

pub open spec fn no_word_msg() -> Seq<char> {
    "scalar position; no word"@
}

pub open spec fn not_numeric_msg(at: nat, w: Seq<char>) -> Seq<char> {
    "length prefix not numeric at pos "@ + decimal_text(at) + ": "@ + debug_str(w)
}

pub open spec fn claims_msg(width: nat, available: nat) -> Seq<char> {
    "group claims "@ + decimal_text(width) + " words; only "@ + decimal_text(available)
        + " available"@
}

pub open spec fn trailing_words_msg(consumed: nat, total: nat) -> Seq<char> {
    "trailing words: consumed "@ + decimal_text(consumed) + " of "@ + decimal_text(total)
}

pub open spec fn nested_group_msg(consumed: nat, total: nat) -> Seq<char> {
    "nested group: consumed "@ + decimal_text(consumed) + " of "@ + decimal_text(total)
        + " body words"@
}

// ---- reading ---------------------------------------------------------------

/// The words of a `(…)` literal, whichever codec wrote it.
pub open spec fn literal_words(text: Seq<char>) -> Result<Seq<Seq<char>>, Fault> {
    let t = trim_spaces(text);
    if t.len() >= 2 && t[0] == '(' && t.last() == ')' {
        let inner = t.subrange(1, t.len() - 1);
        match q_words_spec(inner) {
            Ok(ws) => Ok(ws),
            Err((k, m)) => Err(Fault::Word(trim_newlines(inner), k, m)),
        }
    } else {
        Err(Fault::Layout(literal_msg(t)))
    }
}

/// A scalar: exactly one word.
pub open spec fn scalar_read(ws: Seq<Seq<char>>) -> Result<Tree, Fault> {
    if ws.len() == 1 {
        Ok(Tree::Leaf(ws[0]))
    } else {
        Err(Fault::ExpectedScalar)
    }
}

/// What `QuotedNest` reads words as at depth `d`: at one level every word
/// is a string, deeper every word is the literal of an inner array.
pub open spec fn qn_read(ws: Seq<Seq<char>>, d: nat) -> Result<Tree, Fault>
    decreases d, 1int, 0int,
{
    if d == 0 {
        scalar_read(ws)
    } else if d == 1 {
        Ok(Tree::Node(leaves(ws)))
    } else {
        match qn_read_items(ws, (d - 1) as nat) {
            Ok(ts) => Ok(Tree::Node(ts)),
            Err(f) => Err(f),
        }
    }
}

/// Each word as an inner literal at depth `inner`; the first refusal wins.
pub open spec fn qn_read_items(ws: Seq<Seq<char>>, inner: nat) -> Result<Seq<Tree>, Fault>
    decreases inner + 1, 0int, ws.len(),
{
    if ws.len() == 0 {
        Ok(seq![])
    } else {
        match qn_read_items(ws.drop_last(), inner) {
            Err(f) => Err(f),
            Ok(ts) => match qn_read_literal(ws.last(), inner) {
                Err(f) => Err(f),
                Ok(t) => Ok(ts.push(t)),
            },
        }
    }
}

/// The words an inner `QuotedNest` item holds: those of its `(…)` literal,
/// or, where it is written with no parentheses, the quoted words it is.
pub open spec fn qn_item_words(text: Seq<char>) -> Result<Seq<Seq<char>>, Fault> {
    match literal_words(text) {
        Err(Fault::Layout(_)) => {
            let t = trim_spaces(text);
            match q_words_spec(t) {
                Ok(ws) => Ok(ws),
                Err((k, m)) => Err(Fault::Word(trim_newlines(t), k, m)),
            }
        },
        other => other,
    }
}

/// An inner item read by `QuotedNest` at depth `d`.
pub open spec fn qn_read_literal(text: Seq<char>, d: nat) -> Result<Tree, Fault>
    decreases d, 2int, 0int,
{
    match qn_item_words(text) {
        Err(f) => Err(f),
        Ok(ws) => qn_read(ws, d),
    }
}

/// A refusal among the first items stands for any longer run of them.
proof fn lemma_qn_items_err(ws: Seq<Seq<char>>, inner: nat, i: int, j: int, f: Fault)
    requires
        0 <= i <= j <= ws.len(),
        qn_read_items(ws.take(i), inner) == Err::<Seq<Tree>, Fault>(f),
    ensures
        qn_read_items(ws.take(j), inner) == Err::<Seq<Tree>, Fault>(f),
    decreases j - i,
{
    if j > i {
        lemma_qn_items_err(ws, inner, i, j - 1, f);
        assert(ws.take(j).drop_last() =~= ws.take(j - 1));
    }
}

/// The words of a literal, read with bash's word rules.
fn literal_words_of(input: &str) -> (r: Result<Vec<String>, CodecParseError>)
    requires
        fits_chars(input@),
    ensures
        match literal_words(input@) {
            Ok(ws) => r is Ok && views(r->Ok_0@) == ws && all_fit(ws),
            Err(f) => r is Err && fault_is(r->Err_0, f),
        },
{
    let trimmed = trim(input);
    let chars = chars_of(trimmed);
    let n = chars.len();
    if n >= 2 && chars[0] == '(' && chars[n - 1] == ')' {
        let inner = trimmed.substring_char(1, n - 1);
        proof {
            lemma_trim_is_subrange(input@);
            assert(fits_chars(inner@));
            lemma_fits_chars(inner@);
            lemma_q_words_short(inner@);
        }
        match parse_q_words(inner) {
            Ok(ws) => {
                proof {
                    if let Ok(spec_ws) = q_words_spec(inner@) {
                        assert forall|i: int| 0 <= i < spec_ws.len() implies fits_chars(
                            #[trigger] spec_ws[i],
                        ) by {
                            assert(spec_ws[i].len() <= inner@.len());
                        }
                    }
                }
                Ok(ws)
            },
            Err(e) => Err(CodecParseError::Word(e)),
        }
    } else {
        let mut message = owned("expected (...) array literal: ");
        message.append(debug_quoted(trimmed).as_str());
        Err(CodecParseError::LayoutError(message))
    }
}

/// The words of an inner item: its literal's, or the quoted words it is.
fn item_words_of(input: &str) -> (r: Result<Vec<String>, CodecParseError>)
    requires
        fits_chars(input@),
    ensures
        match qn_item_words(input@) {
            Ok(ws) => r is Ok && views(r->Ok_0@) == ws && all_fit(ws),
            Err(f) => r is Err && fault_is(r->Err_0, f),
        },
{
    let trimmed = trim(input);
    let chars = chars_of(trimmed);
    let n = chars.len();
    if n >= 2 && chars[0] == '(' && chars[n - 1] == ')' {
        return literal_words_of(input);
    }
    proof {
        lemma_trim_is_subrange(input@);
        assert(fits_chars(trimmed@));
        lemma_fits_chars(trimmed@);
        lemma_q_words_short(trimmed@);
    }
    match parse_q_words(trimmed) {
        Ok(ws) => {
            proof {
                if let Ok(spec_ws) = q_words_spec(trimmed@) {
                    assert forall|i: int| 0 <= i < spec_ws.len() implies fits_chars(
                        #[trigger] spec_ws[i],
                    ) by {
                        assert(spec_ws[i].len() <= trimmed@.len());
                    }
                }
            }
            Ok(ws)
        },
        Err(e) => Err(CodecParseError::Word(e)),
    }
}

/// Exactly one word, as a string.
fn one_word(words: &[String]) -> (r: Result<BashVal, CodecParseError>)
    ensures
        codec_outcome(r, scalar_read(views(words@))),
{
    if words.len() == 1 {
        Ok(BashVal::Str(words[0].clone()))
    } else {
        Err(CodecParseError::ExpectedScalar)
    }
}

fn qn_parse(words: &[String], schema: &Schema) -> (r: Result<BashVal, CodecParseError>)
    requires
        all_fit(views(words@)),
    ensures
        codec_outcome(r, qn_read(views(words@), schema.depth())),
    decreases schema,
{
    match schema {
        Schema::Scalar => one_word(words),
        Schema::Arr(b) => {
            let inner: &Schema = &**b;
            let ghost ws = views(words@);
            let ghost d = inner.depth();
            let mut items: Vec<BashVal> = Vec::new();
            let mut i: usize = 0;
            assert(ws.take(0) =~= Seq::<Seq<char>>::empty());
            assert(trees(items@) =~= Seq::<Tree>::empty());
            assert(leaves(ws.take(0)) =~= Seq::<Tree>::empty());
            while i < words.len()
                invariant
                    i <= words.len(),
                    ws == views(words@),
                    all_fit(ws),
                    d == inner.depth(),
                    schema.depth() == d + 1,
                    (*schema)->Arr_0 == *inner,
                    *schema is Arr,
                    items.len() == i,
                    d == 0 ==> trees(items@) == leaves(ws.take(i as int)),
                    d > 0 ==> qn_read_items(ws.take(i as int), d) == Ok::<Seq<Tree>, Fault>(
                        trees(items@),
                    ),
                decreases words.len() - i,
            {
                let ghost before = items@;
                let item = match inner {
                    Schema::Scalar => BashVal::Str(words[i].clone()),
                    Schema::Arr(_) => {
                        proof {
                            assert(d > 0);
                            assert(ws.take(i + 1).drop_last() =~= ws.take(i as int));
                            assert(ws.take(i + 1).last() == ws[i as int]);
                            assert(ws[i as int] == words@[i as int]@);
                        }
                        let inner_words = match item_words_of(words[i].as_str()) {
                            Ok(w) => w,
                            Err(e) => {
                                proof {
                                    let f = qn_item_words(ws[i as int])->Err_0;
                                    assert(qn_read_literal(ws[i as int], d) == Err::<Tree, Fault>(f));
                                    lemma_qn_items_err(ws, d, i + 1, ws.len() as int, f);
                                    assert(ws.take(ws.len() as int) =~= ws);
                                }
                                return Err(e);
                            },
                        };
                        proof {
                            assert(decreases_to!(*schema => (*schema)->Arr_0));
                        }
                        match qn_parse(inner_words.as_slice(), inner) {
                            Ok(v) => v,
                            Err(e) => {
                                proof {
                                    let f = qn_read(views(inner_words@), d)->Err_0;
                                    assert(qn_read_literal(ws[i as int], d) == Err::<Tree, Fault>(f));
                                    lemma_qn_items_err(ws, d, i + 1, ws.len() as int, f);
                                    assert(ws.take(ws.len() as int) =~= ws);
                                }
                                return Err(e);
                            },
                        }
                    },
                };
                items.push(item);
                proof {
                    assert(trees(items@) =~= trees(before).push(item.tree()));
                    if d == 0 {
                        assert(leaves(ws.take(i + 1)) =~= leaves(ws.take(i as int)).push(
                            Tree::Leaf(ws[i as int]),
                        ));
                    }
                }
                i = i + 1;
            }
            proof {
                assert(ws.take(words.len() as int) =~= ws);
                lemma_arr_tree(items);
            }
            Ok(BashVal::Arr(items))
        },
    }
}

/// The digits of a width prefix: what follows an optional `+`.
pub open spec fn width_digits(w: Seq<char>) -> Seq<char> {
    if w.len() > 0 && w[0] == '+' {
        w.drop_first()
    } else {
        w
    }
}

/// A width prefix, as `str::parse::<usize>` reads one: an optional `+`, then
/// decimal digits whose value is a machine integer.
pub open spec fn width_of(w: Seq<char>) -> Option<nat> {
    let d = width_digits(w);
    if d.len() > 0 && (forall|i: int| 0 <= i < d.len() ==> is_digit(#[trigger] d[i]))
        && decimal_value(d) <= usize::MAX {
        Some(decimal_value(d) as nat)
    } else {
        None
    }
}

/// What `LinkedArr` reads words as at depth `d` of at least one: at one
/// level every word is a string, deeper the words are groups, each a width
/// and then that many words.
pub open spec fn la_tree(ws: Seq<Seq<char>>, d: nat) -> Result<Tree, Fault>
    decreases d, ws.len() + 1,
{
    if d <= 1 {
        Ok(Tree::Node(leaves(ws)))
    } else {
        match la_groups(ws, 0, (d - 1) as nat) {
            Ok(ts) => Ok(Tree::Node(ts)),
            Err(f) => Err(f),
        }
    }
}

/// The groups from word `at` on, each read at depth `inner`.
pub open spec fn la_groups(ws: Seq<Seq<char>>, at: int, inner: nat) -> Result<Seq<Tree>, Fault>
    decreases inner + 1, ws.len() - at,
{
    if at < 0 || at >= ws.len() {
        Ok(seq![])
    } else {
        match width_of(ws[at]) {
            None => Err(Fault::Layout(not_numeric_msg(at as nat, ws[at]))),
            Some(w) => {
                let b = at + 1;
                if b + w > ws.len() {
                    Err(Fault::Layout(claims_msg(w, (ws.len() - b) as nat)))
                } else {
                    match la_tree(ws.subrange(b, b + w), inner) {
                        Err(f) => Err(f),
                        Ok(t) => match la_groups(ws, b + w, inner) {
                            Err(f) => Err(f),
                            Ok(ts) => Ok(seq![t] + ts),
                        },
                    }
                }
            },
        }
    }
}

/// What `LinkedArr` reads words as at depth `d`.
pub open spec fn la_read(ws: Seq<Seq<char>>, d: nat) -> Result<Tree, Fault> {
    if d == 0 {
        scalar_read(ws)
    } else {
        la_tree(ws, d)
    }
}

/// `ts` before what the rest reads as.
pub open spec fn prefixed(ts: Seq<Tree>, rest: Result<Seq<Tree>, Fault>) -> Result<Seq<Tree>, Fault> {
    match rest {
        Ok(us) => Ok(ts + us),
        Err(f) => Err(f),
    }
}

fn is_digit_char(c: char) -> (b: bool)
    ensures
        b == is_digit(c),
{
    '0' <= c && c <= '9'
}

/// A width prefix, read as `str::parse::<usize>` reads one.
fn parse_width(w: &str) -> (r: Option<usize>)
    ensures
        match width_of(w@) {
            Some(n) => n <= usize::MAX && r == Some(n as usize),
            None => r is None,
        },
{
    let chars = chars_of(w);
    let start: usize = if chars.len() > 0 && chars[0] == '+' {
        1
    } else {
        0
    };
    let ghost d = width_digits(w@);
    assert(d =~= chars@.subrange(start as int, chars.len() as int));
    let mut digits: Vec<char> = Vec::new();
    let mut i: usize = start;
    while i < chars.len()
        invariant
            start <= i <= chars.len(),
            d == chars@.subrange(start as int, chars.len() as int),
            d == width_digits(w@),
            digits@ == chars@.subrange(start as int, i as int),
            forall|k: int| 0 <= k < digits.len() ==> is_digit(#[trigger] digits@[k]),
        decreases chars.len() - i,
    {
        if !is_digit_char(chars[i]) {
            assert(!is_digit(d[i - start]));
            return None;
        }
        digits.push(chars[i]);
        assert(digits@ =~= chars@.subrange(start as int, i + 1));
        i = i + 1;
    }
    assert(digits@ =~= d);
    if digits.len() == 0 {
        return None;
    }
    proof {
        lemma_decimal_nonneg(d);
    }
    decimal_number(&digits)
}

fn not_numeric_message(at: usize, word: &String) -> (s: String)
    ensures
        s@ == not_numeric_msg(at as nat, word@),
{
    let mut s = owned("length prefix not numeric at pos ");
    push_decimal(&mut s, at);
    s.append(": ");
    s.append(debug_quoted(word.as_str()).as_str());
    s
}

fn claims_message(width: usize, available: usize) -> (s: String)
    ensures
        s@ == claims_msg(width as nat, available as nat),
{
    let mut s = owned("group claims ");
    push_decimal(&mut s, width);
    s.append(" words; only ");
    push_decimal(&mut s, available);
    s.append(" available");
    s
}

fn trailing_words_message(consumed: usize, total: usize) -> (s: String)
    ensures
        s@ == trailing_words_msg(consumed as nat, total as nat),
{
    let mut s = owned("trailing words: consumed ");
    push_decimal(&mut s, consumed);
    s.append(" of ");
    push_decimal(&mut s, total);
    s
}

fn nested_group_message(consumed: usize, total: usize) -> (s: String)
    ensures
        s@ == nested_group_msg(consumed as nat, total as nat),
{
    let mut s = owned("nested group: consumed ");
    push_decimal(&mut s, consumed);
    s.append(" of ");
    push_decimal(&mut s, total);
    s.append(" body words");
    s
}

/// The body of a level: the value and how many words it took. A scalar
/// takes one word; an array takes them all.
fn parse_body(words: &[String], schema: &Schema) -> (r: Result<(BashVal, usize), CodecParseError>)
    ensures
        schema.depth() == 0 ==> (if words.len() > 0 {
            r is Ok && r->Ok_0.0.tree() == Tree::Leaf(words@[0]@) && r->Ok_0.1 == 1
        } else {
            r is Err && fault_is(r->Err_0, Fault::Layout(no_word_msg()))
        }),
        schema.depth() > 0 ==> match la_tree(views(words@), schema.depth()) {
            Ok(t) => r is Ok && r->Ok_0.0.tree() == t && r->Ok_0.1 == words.len(),
            Err(f) => r is Err && fault_is(r->Err_0, f),
        },
    decreases schema,
{
    match schema {
        Schema::Scalar => {
            if words.len() > 0 {
                Ok((BashVal::Str(words[0].clone()), 1))
            } else {
                Err(CodecParseError::LayoutError(owned("scalar position; no word")))
            }
        },
        Schema::Arr(b) => {
            let inner: &Schema = &**b;
            let ghost ws = views(words@);
            let ghost d = inner.depth();
            let mut items: Vec<BashVal> = Vec::new();
            let mut at: usize = 0;
            let grouped = matches!(*inner, Schema::Arr(_));
            assert(grouped == (d > 0));
            if !grouped {
                assert(ws.take(0) =~= Seq::<Seq<char>>::empty());
                assert(trees(items@) =~= leaves(ws.take(0)));
                while at < words.len()
                    invariant
                        at <= words.len(),
                        ws == views(words@),
                        items.len() == at,
                        trees(items@) == leaves(ws.take(at as int)),
                    decreases words.len() - at,
                {
                    let ghost before = items@;
                    items.push(BashVal::Str(words[at].clone()));
                    proof {
                        assert(trees(items@) =~= trees(before).push(Tree::Leaf(ws[at as int])));
                        assert(leaves(ws.take(at + 1)) =~= leaves(ws.take(at as int)).push(
                            Tree::Leaf(ws[at as int]),
                        ));
                    }
                    at = at + 1;
                }
                proof {
                    assert(ws.take(words.len() as int) =~= ws);
                    lemma_arr_tree(items);
                }
            } else {
                proof {
                    assert(trees(items@) =~= Seq::<Tree>::empty());
                    assert(prefixed(trees(items@), la_groups(ws, 0, d)) =~= la_groups(ws, 0, d));
                }
                while at < words.len()
                    invariant
                        at <= words.len(),
                        ws == views(words@),
                        d == inner.depth(),
                        d > 0,
                        schema.depth() == d + 1,
                        (*schema)->Arr_0 == *inner,
                        *schema is Arr,
                        la_groups(ws, 0, d) == prefixed(trees(items@), la_groups(ws, at as int, d)),
                    decreases words.len() - at,
                {
                    let width = match parse_width(words[at].as_str()) {
                        Some(w) => w,
                        None => {
                            return Err(CodecParseError::LayoutError(not_numeric_message(at, &words[at])));
                        },
                    };
                    at = at + 1;
                    if width > words.len() - at {
                        return Err(CodecParseError::LayoutError(claims_message(width, words.len() - at)));
                    }
                    let end = at + width;
                    proof {
                        assert(decreases_to!(*schema => (*schema)->Arr_0));
                        assert(views(words@.subrange(at as int, end as int)) =~= ws.subrange(at as int, end as int));
                    }
                    let (item, consumed) = match parse_body(&words[at..end], inner) {
                        Ok(p) => p,
                        Err(e) => {
                            return Err(e);
                        },
                    };
                    if consumed != end - at {
                        return Err(CodecParseError::LayoutError(nested_group_message(consumed, end - at)));
                    }
                    let ghost before = items@;
                    items.push(item);
                    proof {
                        assert(trees(items@) =~= trees(before).push(item.tree()));
                        let rest = la_groups(ws, end as int, d);
                        match rest {
                            Ok(us) => {
                                assert(trees(before) + (seq![item.tree()] + us) =~= trees(items@) + us);
                            },
                            Err(_) => {},
                        }
                    }
                    at = end;
                }
                proof {
                    assert(trees(items@) + Seq::<Tree>::empty() =~= trees(items@));
                    lemma_arr_tree(items);
                }
            }
            Ok((BashVal::Arr(items), at))
        },
    }
}

// ---- the codecs --------------------------------------------------------------

/// What a one-dimensional read gives as words.
pub open spec fn words_read(s: Result<Tree, Fault>, input: Seq<char>) -> Result<Seq<Seq<char>>, Fault> {
    match s {
        Err(f) => Err(f),
        Ok(t) => match words_of(t) {
            Some(ws) => Ok(ws),
            None => Err(Fault::Layout(shape_msg("words"@, input))),
        },
    }
}

/// What a two-dimensional read gives as rows.
pub open spec fn rows_read(s: Result<Tree, Fault>, input: Seq<char>) -> Result<Seq<Seq<Seq<char>>>, Fault> {
    match s {
        Err(f) => Err(f),
        Ok(t) => match rows_of(t) {
            Some(rs) => Ok(rs),
            None => Err(Fault::Layout(shape_msg("rows"@, input))),
        },
    }
}

/// The value, or a layout refusal naming the shape that was wanted.
fn shaped<T>(got: Option<T>, wanted: &str, input: &str) -> (r: Result<T, CodecParseError>)
    ensures
        match got {
            Some(v) => r is Ok && r->Ok_0 == v,
            None => r is Err && fault_is(r->Err_0, Fault::Layout(shape_msg(wanted@, input@))),
        },
{
    match got {
        Some(v) => Ok(v),
        None => {
            let mut message = owned("expected ");
            message.append(wanted);
            message.append(": ");
            message.append(debug_quoted(input).as_str());
            Err(CodecParseError::LayoutError(message))
        },
    }
}

/// A way to flatten values of any depth into bash words and read them back.
pub trait BashCodec {
    /// The words a tree flattens to.
    spec fn flatten(&self, t: Tree) -> Seq<Seq<char>>;

    /// What words read back as, at a depth.
    spec fn unflatten(&self, ws: Seq<Seq<char>>, depth: nat) -> Result<Tree, Fault>;

    /// The value's own depth decides the encoding, so there is nothing to
    /// disagree with and nothing to fail.
    fn emit(&self, val: &BashVal) -> (words: Vec<String>)
        ensures
            views(words@) == self.flatten(val.tree()),
    ;

    /// A `Schema` says how many layers of quoting to peel, which the text
    /// alone does not.
    fn parse(&self, words: &[String], schema: &Schema) -> (r: Result<BashVal, CodecParseError>)
        requires
            all_fit(views(words@)),
        ensures
            codec_outcome(r, self.unflatten(views(words@), schema.depth())),
    ;

    /// A complete bash array literal: `(w1 w2 …)`, each scalar single-quoted.
    fn emit_literal(&self, val: &BashVal) -> (text: String)
        ensures
            text@ == array_text(self.flatten(val.tree())),
    {
        let words = self.emit(val);
        emit_array(words.as_slice())
    }

    /// A `(…)` literal read back at the schema's depth.
    fn parse_literal(&self, input: &str, schema: &Schema) -> (r: Result<BashVal, CodecParseError>)
        requires
            fits_chars(input@),
        ensures
            codec_outcome(
                r,
                match literal_words(input@) {
                    Ok(ws) => self.unflatten(ws, schema.depth()),
                    Err(f) => Err(f),
                },
            ),
    {
        let words = match literal_words_of(input) {
            Ok(ws) => ws,
            Err(e) => {
                return Err(e);
            },
        };
        self.parse(words.as_slice(), schema)
    }

    /// A one-dimensional literal as its words: `('a' 'b')` → `["a", "b"]`.
    fn words(&self, input: &str) -> (r: Result<Vec<String>, CodecParseError>)
        requires
            fits_chars(input@),
        ensures
            match words_read(
                match literal_words(input@) {
                    Ok(ws) => self.unflatten(ws, 1),
                    Err(f) => Err(f),
                },
                input@,
            ) {
                Ok(ws) => r is Ok && views(r->Ok_0@) == ws,
                Err(f) => r is Err && fault_is(r->Err_0, f),
            },
    {
        let schema = Schema::n_d(1);
        let value = match self.parse_literal(input, &schema) {
            Ok(v) => v,
            Err(e) => {
                return Err(e);
            },
        };
        shaped(value.words(), "words", input)
    }

    /// A two-dimensional literal as its rows: `("'a' 'b'" "'c'")` →
    /// `[["a", "b"], ["c"]]`.
    fn rows(&self, input: &str) -> (r: Result<Vec<Vec<String>>, CodecParseError>)
        requires
            fits_chars(input@),
        ensures
            match rows_read(
                match literal_words(input@) {
                    Ok(ws) => self.unflatten(ws, 2),
                    Err(f) => Err(f),
                },
                input@,
            ) {
                Ok(rs) => r is Ok && r->Ok_0@.len() == rs.len() && forall|i: int|
                    0 <= i < rs.len() ==> views(#[trigger] r->Ok_0@[i]@) == rs[i],
                Err(f) => r is Err && fault_is(r->Err_0, f),
            },
    {
        let schema = Schema::n_d(2);
        let value = match self.parse_literal(input, &schema) {
            Ok(v) => v,
            Err(e) => {
                return Err(e);
            },
        };
        shaped(value.rows(), "rows", input)
    }
}

/// Each inner array is one bash-literal word at the outer level:
/// `[[a,b],[c]] → ["('a' 'b')", "('c')"]`.
pub struct QuotedNest;

impl BashCodec for QuotedNest {
    open spec fn flatten(&self, t: Tree) -> Seq<Seq<char>> {
        qn_words(t)
    }

    open spec fn unflatten(&self, ws: Seq<Seq<char>>, depth: nat) -> Result<Tree, Fault> {
        qn_read(ws, depth)
    }

    fn emit(&self, val: &BashVal) -> (words: Vec<String>) {
        qn_emit(val)
    }

    fn parse(&self, words: &[String], schema: &Schema) -> (r: Result<BashVal, CodecParseError>) {
        qn_parse(words, schema)
    }
}

/// A group is prefixed by its width — the full inner word stream, nested
/// prefixes included — exactly where its elements are themselves groups,
/// since a scalar is already one bash word.
///
/// | value | words |
/// |---|---|
/// | `[a, b]` | `a b` |
/// | `[[a,b],[c,d,e]]` | `2 a b 3 c d e` |
/// | `[[[a,b],[c]]]` | `5 2 a b 1 c` |
/// | `[[[a,b]],[[c]]]` | `3 2 a b 2 1 c` |
pub struct LinkedArr;

impl BashCodec for LinkedArr {
    open spec fn flatten(&self, t: Tree) -> Seq<Seq<char>> {
        la_words(t)
    }

    open spec fn unflatten(&self, ws: Seq<Seq<char>>, depth: nat) -> Result<Tree, Fault> {
        la_read(ws, depth)
    }

    fn emit(&self, val: &BashVal) -> (words: Vec<String>) {
        la_emit(val)
    }

    fn parse(&self, words: &[String], schema: &Schema) -> (r: Result<BashVal, CodecParseError>) {
        match schema {
            Schema::Scalar => one_word(words),
            Schema::Arr(_) => {
                let (val, consumed) = match parse_body(words, schema) {
                    Ok(p) => p,
                    Err(e) => {
                        return Err(e);
                    },
                };
                if consumed != words.len() {
                    return Err(
                        CodecParseError::LayoutError(trailing_words_message(consumed, words.len())),
                    );
                }
                Ok(val)
            },
        }
    }
}

} // verus!
