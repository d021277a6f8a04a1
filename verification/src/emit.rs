//! Bash-value emitters: one canonical form, single-quoted, with a `$'…'`
//! fallback for a value holding a control character. One emission primitive
//! ([`emit_scalar`]) underlies every typed emitter.

use vstd::prelude::*;

use crate::index_map::{
    assoc_entries, assoc_entry, assoc_len, indexed_entries, indexed_entry, indexed_len,
};
use crate::parser::views;
use crate::text::{chars_of, push_char};
use indexmap::IndexMap;

verus! {

/// A control character: what forces the `$'…'` form.
pub open spec fn is_control(c: char) -> bool {
    (c as u32) < 0x20 || c == '\x7f'
}

pub open spec fn needs_ansi(s: Seq<char>) -> bool {
    exists|i: int| 0 <= i < s.len() && is_control(#[trigger] s[i])
}

/// An octal digit as a character.
pub open spec fn digit_char(d: int) -> char {
    ((d + 48) as u8) as char
}

/// How one character is spelled inside single quotes: a quote closes the
/// quoting, escapes itself, and reopens it.
pub open spec fn single_char(c: char) -> Seq<char> {
    if c == '\'' {
        seq!['\'', '\\', '\'', '\'']
    } else {
        seq![c]
    }
}

/// How one character is spelled inside `$'…'`.
pub open spec fn ansi_char(c: char) -> Seq<char> {
    if c == '\'' {
        seq!['\\', '\'']
    } else if c == '\\' {
        seq!['\\', '\\']
    } else if c == '\n' {
        seq!['\\', 'n']
    } else if c == '\r' {
        seq!['\\', 'r']
    } else if c == '\t' {
        seq!['\\', 't']
    } else if c == '\x07' {
        seq!['\\', 'a']
    } else if c == '\x08' {
        seq!['\\', 'b']
    } else if c == '\x1B' {
        seq!['\\', 'E']
    } else if c == '\x0C' {
        seq!['\\', 'f']
    } else if c == '\x0B' {
        seq!['\\', 'v']
    } else if is_control(c) {
        let v = c as u32 as int;
        seq!['\\', digit_char(v / 64), digit_char((v / 8) % 8), digit_char(v % 8)]
    } else {
        seq![c]
    }
}

/// The body of a single-quoted word.
pub open spec fn single_body(s: Seq<char>) -> Seq<char>
    decreases s.len(),
{
    if s.len() == 0 {
        seq![]
    } else {
        single_body(s.drop_last()) + single_char(s.last())
    }
}

/// The body of a `$'…'` word.
pub open spec fn ansi_body(s: Seq<char>) -> Seq<char>
    decreases s.len(),
{
    if s.len() == 0 {
        seq![]
    } else {
        ansi_body(s.drop_last()) + ansi_char(s.last())
    }
}

/// What `emit_scalar` writes: `''` for nothing, `$'…'` where a control
/// character needs it, and `'…'` otherwise.
pub open spec fn scalar_text(s: Seq<char>) -> Seq<char> {
    if s.len() == 0 {
        seq!['\'', '\'']
    } else if needs_ansi(s) {
        seq!['$', '\''] + ansi_body(s) + seq!['\'']
    } else {
        seq!['\''] + single_body(s) + seq!['\'']
    }
}

/// Every word after the first, each with the space before it.
pub open spec fn spaced_words(ws: Seq<Seq<char>>) -> Seq<char>
    decreases ws.len(),
{
    if ws.len() == 0 {
        seq![]
    } else {
        spaced_words(ws.drop_last()) + seq![' '] + scalar_text(ws.last())
    }
}

/// What `emit_q_words` writes: the words, quoted, one space apart.
pub open spec fn q_words_text(ws: Seq<Seq<char>>) -> Seq<char> {
    if ws.len() == 0 {
        seq![]
    } else {
        scalar_text(ws[0]) + spaced_words(ws.drop_first())
    }
}

/// What `emit_array` writes: the q_words in parentheses.
pub open spec fn array_text(ws: Seq<Seq<char>>) -> Seq<char> {
    seq!['('] + q_words_text(ws) + seq![')']
}

fn is_control_char(c: char) -> (b: bool)
    ensures
        b == is_control(c),
{
    (c as u32) < 0x20 || c == '\x7f'
}

fn needs_ansi_c(s: &Vec<char>) -> (b: bool)
    ensures
        b == needs_ansi(s@),
{
    let mut i: usize = 0;
    while i < s.len()
        invariant
            i <= s.len(),
            forall|j: int| 0 <= j < i ==> !is_control(#[trigger] s@[j]),
        decreases s.len() - i,
    {
        if is_control_char(s[i]) {
            return true;
        }
        i = i + 1;
    }
    false
}

fn push_all(out: &mut String, Ghost(cs): Ghost<Seq<char>>, a: char, b: char)
    requires
        cs == seq![a, b],
    ensures
        final(out)@ == old(out)@ + cs,
{
    push_char(out, a);
    push_char(out, b);
    assert(out@ =~= old(out)@ + cs);
}

fn ansi_c(s: &Vec<char>) -> (out: String)
    ensures
        out@ == seq!['$', '\''] + ansi_body(s@) + seq!['\''],
{
    let mut out = String::new();
    push_char(&mut out, '$');
    push_char(&mut out, '\'');
    let mut i: usize = 0;
    proof {
        assert(s@.take(0) =~= seq![]);
        assert(out@ =~= seq!['$', '\''] + ansi_body(s@.take(0)));
    }
    while i < s.len()
        invariant
            i <= s.len(),
            out@ == seq!['$', '\''] + ansi_body(s@.take(i as int)),
        decreases s.len() - i,
    {
        let c = s[i];
        let ghost before = out@;
        if c == '\'' {
            push_all(&mut out, Ghost(ansi_char(c)), '\\', '\'');
        } else if c == '\\' {
            push_all(&mut out, Ghost(ansi_char(c)), '\\', '\\');
        } else if c == '\n' {
            push_all(&mut out, Ghost(ansi_char(c)), '\\', 'n');
        } else if c == '\r' {
            push_all(&mut out, Ghost(ansi_char(c)), '\\', 'r');
        } else if c == '\t' {
            push_all(&mut out, Ghost(ansi_char(c)), '\\', 't');
        } else if c == '\x07' {
            push_all(&mut out, Ghost(ansi_char(c)), '\\', 'a');
        } else if c == '\x08' {
            push_all(&mut out, Ghost(ansi_char(c)), '\\', 'b');
        } else if c == '\x1B' {
            push_all(&mut out, Ghost(ansi_char(c)), '\\', 'E');
        } else if c == '\x0C' {
            push_all(&mut out, Ghost(ansi_char(c)), '\\', 'f');
        } else if c == '\x0B' {
            push_all(&mut out, Ghost(ansi_char(c)), '\\', 'v');
        } else if is_control_char(c) {
            let v = c as u32;
            push_char(&mut out, '\\');
            push_char(&mut out, (((v / 64) + 48) as u8) as char);
            push_char(&mut out, ((((v / 8) % 8) + 48) as u8) as char);
            push_char(&mut out, (((v % 8) + 48) as u8) as char);
            assert(out@ =~= before + ansi_char(c));
        } else {
            push_char(&mut out, c);
            assert(out@ =~= before + ansi_char(c));
        }
        proof {
            assert(s@.take(i + 1).drop_last() =~= s@.take(i as int));
            assert(s@.take(i + 1).last() == c);
        }
        i = i + 1;
    }
    push_char(&mut out, '\'');
    assert(s@.take(s.len() as int) =~= s@);
    out
}

/// One word: `''` for nothing, `'…'` where single quotes can hold the
/// text, `$'…'` where it holds a control character.
pub fn emit_scalar(s: &str) -> (out: String)
    ensures
        out@ == scalar_text(s@),
{
    let chars = chars_of(s);
    if chars.len() == 0 {
        let mut out = String::new();
        push_char(&mut out, '\'');
        push_char(&mut out, '\'');
        assert(out@ =~= seq!['\'', '\'']);
        return out;
    }
    if needs_ansi_c(&chars) {
        return ansi_c(&chars);
    }
    let mut out = String::new();
    push_char(&mut out, '\'');
    let mut i: usize = 0;
    proof {
        assert(chars@.take(0) =~= seq![]);
        assert(out@ =~= seq!['\''] + single_body(chars@.take(0)));
    }
    while i < chars.len()
        invariant
            i <= chars.len(),
            out@ == seq!['\''] + single_body(chars@.take(i as int)),
        decreases chars.len() - i,
    {
        let c = chars[i];
        let ghost before = out@;
        if c == '\'' {
            push_char(&mut out, '\'');
            push_char(&mut out, '\\');
            push_char(&mut out, '\'');
            push_char(&mut out, '\'');
        } else {
            push_char(&mut out, c);
        }
        proof {
            assert(out@ =~= before + single_char(c));
            assert(chars@.take(i + 1).drop_last() =~= chars@.take(i as int));
            assert(chars@.take(i + 1).last() == c);
        }
        i = i + 1;
    }
    push_char(&mut out, '\'');
    assert(chars@.take(chars.len() as int) =~= chars@);
    out
}

pub proof fn lemma_spaced_words_push(ws: Seq<Seq<char>>, w: Seq<char>)
    ensures
        spaced_words(ws.push(w)) == spaced_words(ws) + seq![' '] + scalar_text(w),
{
    assert(ws.push(w).drop_last() =~= ws);
}

/// The quoted words, one space apart, into `out`.
fn push_words(out: &mut String, words: &[String])
    ensures
        final(out)@ == old(out)@ + q_words_text(views(words@)),
{
    let ghost all = views(words@);
    if words.len() == 0 {
        assert(q_words_text(all) =~= seq![]);
        assert(out@ =~= old(out)@ + q_words_text(all));
        return;
    }
    let first = emit_scalar(words[0].as_str());
    out.append(first.as_str());
    let mut i: usize = 1;
    proof {
        assert(all.drop_first().take(0) =~= seq![]);
    }
    while i < words.len()
        invariant
            1 <= i <= words.len(),
            all == views(words@),
            out@ == old(out)@ + scalar_text(all[0]) + spaced_words(all.drop_first().take(i - 1)),
        decreases words.len() - i,
    {
        let word = emit_scalar(words[i].as_str());
        let ghost before = out@;
        push_char(out, ' ');
        out.append(word.as_str());
        proof {
            let rest = all.drop_first();
            assert(rest.take(i as int) =~= rest.take(i - 1).push(all[i as int]));
            lemma_spaced_words_push(rest.take(i - 1), all[i as int]);
            assert(out@ =~= old(out)@ + scalar_text(all[0]) + spaced_words(rest.take(i as int)));
        }
        i = i + 1;
    }
    proof {
        assert(all.drop_first().take(words.len() - 1) =~= all.drop_first());
        assert(out@ =~= old(out)@ + q_words_text(all));
    }
}

/// Each word as `emit_scalar` writes it, one space between them.
pub fn emit_q_words(words: &[String]) -> (out: String)
    ensures
        out@ == q_words_text(views(words@)),
{
    let mut out = String::new();
    push_words(&mut out, words);
    assert(out@ =~= q_words_text(views(words@)));
    out
}

/// One bash array literal: `["a", "b c"]` → `('a' 'b c')`. The inverse of
/// [`parse_array`](crate::parse_array).
pub fn emit_array(words: &[String]) -> (out: String)
    ensures
        out@ == array_text(views(words@)),
{
    let mut out = String::new();
    push_char(&mut out, '(');
    push_words(&mut out, words);
    push_char(&mut out, ')');
    assert(out@ =~= array_text(views(words@)));
    out
}

/// A number in decimal, as `{}` prints it.
pub open spec fn decimal_text(n: nat) -> Seq<char>
    decreases n,
{
    if n < 10 {
        seq![digit_char(n as int)]
    } else {
        decimal_text(n / 10) + seq![digit_char((n % 10) as int)]
    }
}

/// `[5]='v'`: one entry of an indexed array.
pub open spec fn indexed_item(k: usize, v: Seq<char>) -> Seq<char> {
    seq!['['] + decimal_text(k as nat) + seq![']', '='] + scalar_text(v)
}

/// `['k']='v'`: one entry of an associative array.
pub open spec fn assoc_item(k: Seq<char>, v: Seq<char>) -> Seq<char> {
    seq!['['] + scalar_text(k) + seq![']', '='] + scalar_text(v)
}

/// Items one space apart.
pub open spec fn spaced(items: Seq<Seq<char>>) -> Seq<char>
    decreases items.len(),
{
    if items.len() == 0 {
        seq![]
    } else if items.len() == 1 {
        items[0]
    } else {
        items[0] + seq![' '] + spaced(items.drop_first())
    }
}

pub open spec fn indexed_items(e: Seq<(usize, Seq<char>)>) -> Seq<Seq<char>> {
    Seq::new(e.len(), |i: int| indexed_item(e[i].0, e[i].1))
}

pub open spec fn assoc_items(e: Seq<(Seq<char>, Seq<char>)>) -> Seq<Seq<char>> {
    Seq::new(e.len(), |i: int| assoc_item(e[i].0, e[i].1))
}

/// What `emit_indexed` writes for these entries.
pub open spec fn indexed_text(e: Seq<(usize, Seq<char>)>) -> Seq<char> {
    seq!['('] + spaced(indexed_items(e)) + seq![')']
}

/// What `emit_assoc` writes for these entries.
pub open spec fn assoc_text(e: Seq<(Seq<char>, Seq<char>)>) -> Seq<char> {
    seq!['('] + spaced(assoc_items(e)) + seq![')']
}

pub proof fn lemma_spaced_push(items: Seq<Seq<char>>, x: Seq<char>)
    ensures
        spaced(items.push(x)) == (if items.len() == 0 {
            x
        } else {
            spaced(items) + seq![' '] + x
        }),
    decreases items.len(),
{
    if items.len() == 0 {
        assert(items.push(x) =~= seq![x]);
    } else if items.len() == 1 {
        assert(items.push(x).drop_first() =~= seq![x]);
        assert(spaced(items.push(x).drop_first()) == x);
    } else {
        lemma_spaced_push(items.drop_first(), x);
        assert(items.push(x).drop_first() =~= items.drop_first().push(x));
        assert(spaced(items.push(x)) =~= spaced(items) + seq![' '] + x);
    }
}

/// A number in decimal, as `to_string` writes it.
pub(crate) fn decimal_string(n: usize) -> (s: String)
    ensures
        s@ == decimal_text(n as nat),
{
    let mut s = String::new();
    push_decimal(&mut s, n);
    assert(s@ =~= decimal_text(n as nat));
    s
}

/// A number in decimal, into `out`.
pub(crate) fn push_decimal(out: &mut String, n: usize)
    ensures
        final(out)@ == old(out)@ + decimal_text(n as nat),
    decreases n,
{
    if n >= 10 {
        push_decimal(out, n / 10);
    }
    push_char(out, (((n % 10) + 48) as u8) as char);
    proof {
        if n < 10 {
            assert(n % 10 == n);
        }
        assert(out@ =~= old(out)@ + decimal_text(n as nat));
    }
}

/// `['k']='v'` or `[5]='v'` after the key's own text.
fn push_entry_value(out: &mut String, value: &String)
    ensures
        final(out)@ == old(out)@ + seq![']', '='] + scalar_text(value@),
{
    push_char(out, ']');
    push_char(out, '=');
    let v = emit_scalar(value.as_str());
    out.append(v.as_str());
    assert(out@ =~= old(out)@ + seq![']', '='] + scalar_text(value@));
}

/// `([0]='a' [5]='b')`: each entry in the map's order.
pub fn emit_indexed(m: &IndexMap<usize, String>) -> (out: String)
    ensures
        out@ == indexed_text(indexed_entries(*m)),
{
    let ghost e = indexed_entries(*m);
    let mut out = String::new();
    push_char(&mut out, '(');
    let n = indexed_len(m);
    let mut i: usize = 0;
    proof {
        assert(indexed_items(e).take(0) =~= Seq::<Seq<char>>::empty());
        assert(out@ =~= seq!['('] + spaced(indexed_items(e).take(0)));
    }
    while i < n
        invariant
            i <= n,
            n == e.len(),
            e == indexed_entries(*m),
            out@ == seq!['('] + spaced(indexed_items(e).take(i as int)),
        decreases n - i,
    {
        let (key, value) = indexed_entry(m, i);
        let ghost before = out@;
        if i > 0 {
            push_char(&mut out, ' ');
        }
        push_char(&mut out, '[');
        push_decimal(&mut out, key);
        push_entry_value(&mut out, &value);
        proof {
            let items = indexed_items(e);
            assert(items.take(i + 1) =~= items.take(i as int).push(items[i as int]));
            lemma_spaced_push(items.take(i as int), items[i as int]);
            assert(out@ =~= seq!['('] + spaced(items.take(i + 1)));
        }
        i = i + 1;
    }
    push_char(&mut out, ')');
    proof {
        assert(indexed_items(e).take(n as int) =~= indexed_items(e));
        assert(out@ =~= indexed_text(e));
    }
    out
}

/// `(['k']='v')`: each entry in the map's order, the key a word too.
pub fn emit_assoc(m: &IndexMap<String, String>) -> (out: String)
    ensures
        out@ == assoc_text(assoc_entries(*m)),
{
    let ghost e = assoc_entries(*m);
    let mut out = String::new();
    push_char(&mut out, '(');
    let n = assoc_len(m);
    let mut i: usize = 0;
    proof {
        assert(assoc_items(e).take(0) =~= Seq::<Seq<char>>::empty());
        assert(out@ =~= seq!['('] + spaced(assoc_items(e).take(0)));
    }
    while i < n
        invariant
            i <= n,
            n == e.len(),
            e == assoc_entries(*m),
            out@ == seq!['('] + spaced(assoc_items(e).take(i as int)),
        decreases n - i,
    {
        let (key, value) = assoc_entry(m, i);
        if i > 0 {
            push_char(&mut out, ' ');
        }
        push_char(&mut out, '[');
        let k = emit_scalar(key.as_str());
        out.append(k.as_str());
        push_entry_value(&mut out, &value);
        proof {
            let items = assoc_items(e);
            assert(items.take(i + 1) =~= items.take(i as int).push(items[i as int]));
            lemma_spaced_push(items.take(i as int), items[i as int]);
            assert(out@ =~= seq!['('] + spaced(items.take(i + 1)));
        }
        i = i + 1;
    }
    push_char(&mut out, ')');
    proof {
        assert(assoc_items(e).take(n as int) =~= assoc_items(e));
        assert(out@ =~= assoc_text(e));
    }
    out
}

} // verus!
