//! What bash reads back from what this crate writes: every emitter's text
//! parses to the value it was written from.

use vstd::prelude::*;

use crate::emit::{
    ansi_body, ansi_char, array_text, assoc_item, assoc_items, assoc_text, decimal_text,
    digit_char, indexed_item, indexed_items, indexed_text, is_control, needs_ansi, q_words_text,
    scalar_text, single_body, spaced, spaced_words,
};
use crate::grammar::{
    ansi_loop, bare_loop, blank_run, bounded_run, byte_char, decimal_value, escape_scan,
    has_prefix, in_class, is_digit, is_octal, whole,
    lemma_quoted_at_ansi, lemma_quoted_at_single, lemma_quoted_none, lemma_run_len_bounds,
    lemma_run_len_is, lemma_segment_quoted, lemma_segment_unquoted, octal_run, octal_value,
    quoted_scan, run_len, segment_scan, shift, single_scan, word_rest, word_scan, Class,
};
use crate::index_map::{distinct_keys, lemma_insert_all_distinct};
use crate::parser::{
    array_spec, assoc_loop, assoc_spec, bracket_scan, indexed_loop, indexed_spec, key_stops,
    q_words_more, q_words_scan, q_words_spec, scalar_spec,
    trim_end_spaces, trim_newlines, trim_spaces, trim_start_spaces, value_stops,
};

verus! {

/// Text after which a word has ended: nothing, or a stop character that
/// starts no other segment.
pub open spec fn ends_word(t: Seq<char>, stops: Seq<char>) -> bool {
    t.len() == 0 || (stops.contains(t[0]) && t[0] != '\\' && t[0] != '\'' && t[0] != '"' && t[0]
        != '$')
}

// ---- the emitters' bodies split anywhere ------------------------------------

proof fn lemma_single_body_concat(a: Seq<char>, b: Seq<char>)
    ensures
        single_body(a + b) == single_body(a) + single_body(b),
    decreases b.len(),
{
    if b.len() == 0 {
        assert(a + b =~= a);
        assert(single_body(a) + single_body(b) =~= single_body(a));
    } else {
        lemma_single_body_concat(a, b.drop_last());
        assert((a + b).drop_last() =~= a + b.drop_last());
        assert((a + b).last() == b.last());
        assert(single_body(a + b) =~= single_body(a) + single_body(b));
    }
}

proof fn lemma_ansi_body_concat(a: Seq<char>, b: Seq<char>)
    ensures
        ansi_body(a + b) == ansi_body(a) + ansi_body(b),
    decreases b.len(),
{
    if b.len() == 0 {
        assert(a + b =~= a);
        assert(ansi_body(a) + ansi_body(b) =~= ansi_body(a));
    } else {
        lemma_ansi_body_concat(a, b.drop_last());
        assert((a + b).drop_last() =~= a + b.drop_last());
        assert((a + b).last() == b.last());
        assert(ansi_body(a + b) =~= ansi_body(a) + ansi_body(b));
    }
}

proof fn lemma_ansi_body_front(s: Seq<char>)
    requires
        s.len() > 0,
    ensures
        ansi_body(s) == ansi_char(s[0]) + ansi_body(s.drop_first()),
{
    let one = seq![s[0]];
    assert(s =~= one + s.drop_first());
    lemma_ansi_body_concat(one, s.drop_first());
    assert(one.drop_last() =~= Seq::<char>::empty());
    assert(one.last() == s[0]);
    assert(ansi_body(Seq::<char>::empty()) =~= Seq::<char>::empty());
    assert(ansi_body(one) =~= ansi_char(s[0]));
}

proof fn lemma_single_body_plain(s: Seq<char>)
    requires
        forall|i: int| 0 <= i < s.len() ==> s[i] != '\'',
    ensures
        single_body(s) == s,
    decreases s.len(),
{
    if s.len() > 0 {
        lemma_single_body_plain(s.drop_last());
        assert(single_body(s) =~= s);
    }
}

// ---- `$'…'` reads back ------------------------------------------------------

proof fn lemma_control_octal(c: char)
    requires
        is_control(c),
    ensures
        ({
            let v = c as u32 as int;
            let d = seq![digit_char(v / 64), digit_char((v / 8) % 8), digit_char(v % 8)];
            &&& is_octal(d[0]) && is_octal(d[1]) && is_octal(d[2])
            &&& octal_value(d) == v
            &&& v <= 255
            &&& byte_char(v) == c
        }),
{
    let v = c as u32 as int;
    assert(v < 128);
    let d = seq![digit_char(v / 64), digit_char((v / 8) % 8), digit_char(v % 8)];
    assert(d[0] as int == v / 64 + 48);
    assert(d[1] as int == (v / 8) % 8 + 48);
    assert(d[2] as int == v % 8 + 48);
    assert(d.drop_last().drop_last().drop_last() =~= seq![]);
    assert(d.drop_last().drop_last() =~= seq![d[0]]);
    assert(d.drop_last() =~= seq![d[0], d[1]]);
    assert(octal_value(d) == ((v / 64) * 8 + (v / 8) % 8) * 8 + v % 8) by {
        reveal_with_fuel(octal_value, 4);
    }
    assert(((v / 64) * 8 + (v / 8) % 8) * 8 + v % 8 == v) by (nonlinear_arith)
        requires
            0 <= v < 128,
    ;
    assert(byte_char(v) == c);
}

/// One character's `$'…'` spelling reads back as that character.
proof fn lemma_ansi_step(c: char, r: Seq<char>, acc: Seq<char>)
    ensures
        ansi_loop(ansi_char(c) + r, acc) == shift(ansi_loop(r, acc.push(c)), ansi_char(c).len() as int),
{
    let x = ansi_char(c) + r;
    let e = ansi_char(c);
    if e.len() == 2 {
        assert(x[0] == '\\');
        assert(x.skip(2) =~= r);
        assert(x[1] == e[1]);
        assert(escape_scan(r, e[1], acc) == Ok::<(Seq<char>, int), (int, Seq<char>)>((acc.push(c), 0)));
        assert(r.skip(0) =~= r);
    } else if e.len() == 4 {
        let v = c as u32 as int;
        lemma_control_octal(c);
        assert(x[0] == '\\');
        assert(x[1] == e[1]);
        assert(x.skip(2) =~= seq![e[2], e[3]] + r);
        let y = x.skip(2);
        assert(y[0] == e[2] && y[1] == e[3]);
        assert(in_class(Class::Octal, y[0]));
        assert(in_class(Class::Octal, y.skip(1)[0]));
        assert(octal_run(y, 2) == 2) by {
            reveal_with_fuel(bounded_run, 3);
        }
        assert(y.take(2) =~= seq![e[2], e[3]]);
        assert(seq![e[1]] + y.take(2) =~= seq![e[1], e[2], e[3]]);
        assert(escape_scan(y, e[1], acc) == Ok::<(Seq<char>, int), (int, Seq<char>)>((acc.push(c), 2)));
        assert(x.skip(4) =~= r);
    } else {
        assert(e =~= seq![c]);
        assert(x[0] == c);
        assert(x.skip(1) =~= r);
    }
}

/// A `$'…'` body, its closing quote, and whatever follows.
proof fn lemma_ansi_loop_reads(s: Seq<char>, t: Seq<char>, acc: Seq<char>)
    ensures
        ansi_loop(ansi_body(s) + seq!['\''] + t, acc) == Ok::<(Seq<char>, int), (int, Seq<char>)>(
            (acc + s, ansi_body(s).len() + 1int),
        ),
    decreases s.len(),
{
    if s.len() == 0 {
        assert(ansi_body(s) + seq!['\''] + t =~= seq!['\''] + t);
        assert(acc + s =~= acc);
    } else {
        let c = s[0];
        let s1 = s.drop_first();
        lemma_ansi_body_front(s);
        let r = ansi_body(s1) + seq!['\''] + t;
        assert(ansi_body(s) + seq!['\''] + t =~= ansi_char(c) + r);
        lemma_ansi_step(c, r, acc);
        lemma_ansi_loop_reads(s1, t, acc.push(c));
        assert(acc.push(c) + s1 =~= acc + s);
    }
}

// ---- words end where they should ---------------------------------------------

proof fn lemma_word_rest_ends(t: Seq<char>, stops: Seq<char>, acc: Seq<char>)
    requires
        ends_word(t, stops),
    ensures
        word_rest(t, stops, acc) == (acc, 0int),
{
    if t.len() > 0 {
        lemma_quoted_none(t);
    } else {
        reveal(quoted_scan);
    }
    lemma_segment_unquoted(t, stops);
}

/// A single-quoted segment with no quote inside reads back as its body.
proof fn lemma_single_read(s: Seq<char>, rest: Seq<char>)
    requires
        forall|i: int| 0 <= i < s.len() ==> s[i] != '\'',
    ensures
        single_scan(seq!['\''] + s + seq!['\''] + rest) == Ok::<(Seq<char>, int), (int, Seq<char>)>(
            (s, s.len() + 2int),
        ),
{
    let x = seq!['\''] + s + seq!['\''] + rest;
    assert(x.take(1) =~= seq!['\'']);
    let y = x.skip(1);
    assert(y =~= s + seq!['\''] + rest);
    assert forall|i: int| 0 <= i < s.len() implies in_class(Class::NotQuote, #[trigger] y[i]) by {
        assert(y[i] == s[i]);
    }
    assert(y[s.len() as int] == '\'');
    lemma_run_len_is(y, Class::NotQuote, s.len() as int);
    assert(x.subrange(1, 1 + s.len() as int) =~= s);
}

/// `\'` between single-quoted segments is a quote, read as bare text.
proof fn lemma_escaped_quote(z: Seq<char>, stops: Seq<char>)
    requires
        z.len() > 0,
        z[0] == '\'',
    ensures
        segment_scan(seq!['\\', '\''] + z, stops) == Ok::<Option<(Seq<char>, int)>, (int, Seq<char>)>(
            Some((seq!['\''], 2int)),
        ),
{
    let w = seq!['\\', '\''] + z;
    lemma_quoted_none(w);
    lemma_segment_unquoted(w, stops);
    assert(w.skip(2) =~= z);
    assert(bare_loop(z, stops, seq!['\'']) == (seq!['\''], 0int));
    assert(Seq::<char>::empty().push('\'') =~= seq!['\'']);
    assert(bare_loop(w, stops, Seq::<char>::empty()) == (seq!['\''], 2int));
}

/// One segment read, the rest of the word after it.
proof fn lemma_word_rest_step(x: Seq<char>, stops: Seq<char>, acc: Seq<char>, t: Seq<char>, k: int)
    requires
        segment_scan(x, stops) == Ok::<Option<(Seq<char>, int)>, (int, Seq<char>)>(Some((t, k))),
        0 < k <= x.len(),
    ensures
        word_rest(x, stops, acc) == (
            word_rest(x.skip(k), stops, acc + t).0,
            word_rest(x.skip(k), stops, acc + t).1 + k,
        ),
{
}

/// The single-quoted spelling of a quote: `'\''`.
proof fn lemma_single_body_quote()
    ensures
        single_body(seq!['\'']) == seq!['\'', '\\', '\'', '\''],
{
    let one = seq!['\''];
    assert(one.drop_last() =~= Seq::<char>::empty());
    assert(single_body(Seq::<char>::empty()) =~= Seq::<char>::empty());
    assert(single_body(one) =~= seq!['\'', '\\', '\'', '\'']);
}

/// A single-quoted chunk with no quote in it.
proof fn lemma_single_chunk_plain(s: Seq<char>, t: Seq<char>, stops: Seq<char>, acc: Seq<char>)
    requires
        ends_word(t, stops),
        forall|i: int| 0 <= i < s.len() ==> s[i] != '\'',
    ensures
        word_rest(seq!['\''] + s + seq!['\''] + t, stops, acc) == (acc + s, s.len() + 2int),
        quoted_scan(seq!['\''] + s + seq!['\''] + t) == Ok::<Option<(Seq<char>, int)>, (int, Seq<char>)>(
            Some((s, s.len() + 2int)),
        ),
{
    let x = seq!['\''] + s + seq!['\''] + t;
    lemma_quoted_at_single(x);
    lemma_single_read(s, t);
    lemma_segment_quoted(x, stops);
    lemma_word_rest_step(x, stops, acc, s, s.len() + 2int);
    assert(x.skip(s.len() + 2int) =~= t);
    lemma_word_rest_ends(t, stops, acc + s);
}

/// A single-quoted chunk, however many quotes it spells, reads back whole.
proof fn lemma_single_chunk(s: Seq<char>, t: Seq<char>, stops: Seq<char>, acc: Seq<char>)
    requires
        ends_word(t, stops),
    ensures
        word_rest(seq!['\''] + single_body(s) + seq!['\''] + t, stops, acc) == (
            acc + s,
            single_body(s).len() + 2int,
        ),
        quoted_scan(seq!['\''] + single_body(s) + seq!['\''] + t) is Ok,
        quoted_scan(seq!['\''] + single_body(s) + seq!['\''] + t)->Ok_0 is Some,
        0 < quoted_scan(seq!['\''] + single_body(s) + seq!['\''] + t)->Ok_0->Some_0.1,
    decreases s.len(),
{
    let n = run_len(s, Class::NotQuote);
    lemma_run_len_bounds(s, Class::NotQuote);
    let s1 = s.take(n);
    assert forall|i: int| 0 <= i < s1.len() implies s1[i] != '\'' by {
        assert(in_class(Class::NotQuote, s[i]));
    }
    lemma_single_body_plain(s1);
    if n == s.len() {
        assert(s1 =~= s);
        lemma_single_chunk_plain(s, t, stops, acc);
    } else {
        lemma_single_chunk_quote(s, t, stops, acc);
    }
}

/// A single-quoted chunk whose body holds a quote: the part before it, the
/// quote spelled `'\''`, then a shorter chunk.
proof fn lemma_single_chunk_quote(s: Seq<char>, t: Seq<char>, stops: Seq<char>, acc: Seq<char>)
    requires
        ends_word(t, stops),
        run_len(s, Class::NotQuote) < s.len(),
    ensures
        word_rest(seq!['\''] + single_body(s) + seq!['\''] + t, stops, acc) == (
            acc + s,
            single_body(s).len() + 2int,
        ),
        quoted_scan(seq!['\''] + single_body(s) + seq!['\''] + t) is Ok,
        quoted_scan(seq!['\''] + single_body(s) + seq!['\''] + t)->Ok_0 is Some,
        0 < quoted_scan(seq!['\''] + single_body(s) + seq!['\''] + t)->Ok_0->Some_0.1,
    decreases s.len(), 0int,
{
    let x = seq!['\''] + single_body(s) + seq!['\''] + t;
    let n = run_len(s, Class::NotQuote);
    lemma_run_len_bounds(s, Class::NotQuote);
    let s1 = s.take(n);
    assert forall|i: int| 0 <= i < s1.len() implies s1[i] != '\'' by {
        assert(in_class(Class::NotQuote, s[i]));
    }
    lemma_single_body_plain(s1);
    let s2 = s.skip(n + 1);
    assert(s[n] == '\'');
    assert(s =~= s1 + seq!['\''] + s2);
    lemma_single_body_concat(s1 + seq!['\''], s2);
    lemma_single_body_concat(s1, seq!['\'']);
    lemma_single_body_quote();
    let z = seq!['\''] + single_body(s2) + seq!['\''] + t;
    let w = seq!['\\', '\''] + z;
    assert(x =~= seq!['\''] + s1 + seq!['\''] + w);
    lemma_quoted_at_single(x);
    lemma_single_read(s1, w);
    lemma_segment_quoted(x, stops);
    lemma_word_rest_step(x, stops, acc, s1, n + 2);
    assert(x.skip(n + 2) =~= w);
    lemma_escaped_quote(z, stops);
    lemma_word_rest_step(w, stops, acc + s1, seq!['\''], 2);
    assert(w.skip(2) =~= z);
    lemma_single_chunk(s2, t, stops, acc + s1 + seq!['\'']);
    assert(acc + s1 + seq!['\''] + s2 =~= acc + s);
}

/// A `$'…'` chunk reads back whole.
proof fn lemma_ansi_chunk(s: Seq<char>, t: Seq<char>, stops: Seq<char>, acc: Seq<char>)
    requires
        ends_word(t, stops),
    ensures
        word_rest(seq!['$', '\''] + ansi_body(s) + seq!['\''] + t, stops, acc) == (
            acc + s,
            ansi_body(s).len() + 3int,
        ),
        quoted_scan(seq!['$', '\''] + ansi_body(s) + seq!['\''] + t) is Ok,
        quoted_scan(seq!['$', '\''] + ansi_body(s) + seq!['\''] + t)->Ok_0 is Some,
        0 < quoted_scan(seq!['$', '\''] + ansi_body(s) + seq!['\''] + t)->Ok_0->Some_0.1,
{
    let x = seq!['$', '\''] + ansi_body(s) + seq!['\''] + t;
    lemma_quoted_at_ansi(x);
    assert(x.skip(2) =~= ansi_body(s) + seq!['\''] + t);
    lemma_ansi_loop_reads(s, t, seq![]);
    lemma_segment_quoted(x, stops);
    assert(seq![] + s =~= s);
    assert(x.skip(ansi_body(s).len() + 3int) =~= t);
    lemma_word_rest_ends(t, stops, acc + s);
}

/// Where the first segment is a quoting form, a word is its segments.
proof fn lemma_word_from_quoted(x: Seq<char>, stops: Seq<char>)
    requires
        quoted_scan(x) is Ok,
        quoted_scan(x)->Ok_0 is Some,
        0 < quoted_scan(x)->Ok_0->Some_0.1 <= x.len(),
    ensures
        word_scan(x, stops) == Ok::<(Seq<char>, int), (int, Seq<char>)>(word_rest(x, stops, seq![])),
{
    reveal(word_scan);
    lemma_segment_quoted(x, stops);
    let (t, k) = quoted_scan(x)->Ok_0->Some_0;
    assert(Seq::<char>::empty() + t =~= t);
}

/// Every scalar bash reads from this crate's spelling of it, whatever stop
/// character comes after.
pub proof fn lemma_scalar_word(s: Seq<char>, t: Seq<char>, stops: Seq<char>)
    requires
        ends_word(t, stops),
    ensures
        word_scan(scalar_text(s) + t, stops) == Ok::<(Seq<char>, int), (int, Seq<char>)>(
            (s, scalar_text(s).len() as int),
        ),
{
    let x = scalar_text(s) + t;
    if s.len() == 0 {
        assert(single_body(s) =~= Seq::<char>::empty());
        assert(x =~= seq!['\''] + single_body(s) + seq!['\''] + t);
        lemma_single_chunk(s, t, stops, Seq::<char>::empty());
    } else if needs_ansi(s) {
        assert(x =~= seq!['$', '\''] + ansi_body(s) + seq!['\''] + t);
        lemma_ansi_chunk(s, t, stops, Seq::<char>::empty());
    } else {
        assert(x =~= seq!['\''] + single_body(s) + seq!['\''] + t);
        lemma_single_chunk(s, t, stops, Seq::<char>::empty());
    }
    crate::grammar::lemma_quoted_bounds(x);
    lemma_word_from_quoted(x, stops);
    assert(Seq::<char>::empty() + s =~= s);
}

/// This crate's scalar spelling ends in a quote.
proof fn lemma_scalar_text_shape(s: Seq<char>)
    ensures
        scalar_text(s).len() >= 2,
        scalar_text(s).last() == '\'',
        scalar_text(s)[0] == '\'' || scalar_text(s)[0] == '$',
{
}

// ---- the laws ---------------------------------------------------------------

/// `parse_scalar(emit_scalar(s))` gives `s` back, for every string.
pub proof fn law_scalar_round_trip(s: Seq<char>)
    ensures
        scalar_spec(scalar_text(s)) == Ok::<Seq<char>, (int, Seq<char>)>(s),
{
    let x = scalar_text(s);
    lemma_scalar_text_shape(s);
    assert(trim_newlines(x) == x);
    lemma_scalar_word(s, seq![], value_stops());
    assert(x + seq![] =~= x);
}

proof fn lemma_spaced_words_front(ws: Seq<Seq<char>>)
    requires
        ws.len() > 0,
    ensures
        spaced_words(ws) == seq![' '] + scalar_text(ws[0]) + spaced_words(ws.drop_first()),
    decreases ws.len(),
{
    if ws.len() == 1 {
        assert(ws.drop_last() =~= seq![]);
        assert(ws.drop_first() =~= seq![]);
        assert(spaced_words(ws) =~= seq![' '] + scalar_text(ws[0]) + spaced_words(ws.drop_first()));
    } else {
        lemma_spaced_words_front(ws.drop_last());
        assert(ws.drop_last().drop_first() =~= ws.drop_first().drop_last());
        assert(ws.drop_first().last() == ws.last());
        assert(ws.drop_last()[0] == ws[0]);
        assert(spaced_words(ws) =~= seq![' '] + scalar_text(ws[0]) + spaced_words(ws.drop_first()));
    }
}

proof fn lemma_q_words_more_reads(ws: Seq<Seq<char>>, acc: Seq<Seq<char>>, subscripts: bool)
    ensures
        q_words_more(spaced_words(ws), acc, subscripts) == Ok::<
            (Seq<Seq<char>>, int),
            (int, Seq<char>),
        >((acc + ws, spaced_words(ws).len() as int)),
    decreases ws.len(),
{
    if ws.len() == 0 {
        assert(acc + ws =~= acc);
    } else {
        lemma_spaced_words_front(ws);
        let rest = spaced_words(ws.drop_first());
        let x = spaced_words(ws);
        assert(has_prefix(x, seq![' '])) by {
            assert(x.take(1) =~= seq![' ']);
        }
        assert(x.skip(1) =~= scalar_text(ws[0]) + rest);
        assert(ends_word(rest, value_stops())) by {
            if ws.drop_first().len() > 0 {
                lemma_spaced_words_front(ws.drop_first());
                assert(rest[0] == ' ');
                assert(value_stops()[0] == ' ');
            }
        }
        lemma_scalar_word(ws[0], rest, value_stops());
        lemma_scalar_text_shape(ws[0]);
        assert(!has_prefix(x.skip(1), seq!['['])) by {
            assert(x.skip(1)[0] == scalar_text(ws[0])[0]);
            assert(x.skip(1).take(1)[0] == x.skip(1)[0]);
        }
        let k = scalar_text(ws[0]).len() as int;
        assert(x.skip(1 + k) =~= rest);
        lemma_q_words_more_reads(ws.drop_first(), acc.push(ws[0]), subscripts);
        assert(acc.push(ws[0]) + ws.drop_first() =~= acc + ws);
    }
}

proof fn lemma_q_words_text_shape(ws: Seq<Seq<char>>)
    ensures
        ws.len() == 0 ==> q_words_text(ws).len() == 0,
        ws.len() > 0 ==> q_words_text(ws).len() > 0 && q_words_text(ws).last() == '\'',
{
    if ws.len() > 0 {
        lemma_scalar_text_shape(ws[0]);
        let rest = ws.drop_first();
        if rest.len() > 0 {
            lemma_scalar_text_shape(rest.last());
        }
    }
}

/// What the q_words of `ws` read as, with or without subscripts: `ws`.
proof fn lemma_q_words_text_reads(ws: Seq<Seq<char>>, subscripts: bool)
    ensures
        whole(q_words_scan(q_words_text(ws), subscripts), q_words_text(ws).len() as int) == Ok::<
            Seq<Seq<char>>,
            (int, Seq<char>),
        >(ws),
{
    let x = q_words_text(ws);
    if ws.len() > 0 {
        let rest = spaced_words(ws.drop_first());
        assert(ends_word(rest, value_stops())) by {
            if ws.drop_first().len() > 0 {
                lemma_spaced_words_front(ws.drop_first());
                assert(rest[0] == ' ');
                assert(value_stops()[0] == ' ');
            }
        }
        lemma_scalar_word(ws[0], rest, value_stops());
        lemma_scalar_text_shape(ws[0]);
        assert(!has_prefix(x, seq!['['])) by {
            assert(x[0] == scalar_text(ws[0])[0]);
            assert(x.take(1)[0] == x[0]);
        }
        let k = scalar_text(ws[0]).len() as int;
        assert(x.skip(k) =~= rest);
        lemma_q_words_more_reads(ws.drop_first(), seq![ws[0]], subscripts);
        assert(seq![ws[0]] + ws.drop_first() =~= ws);
    } else {
        assert(ws =~= seq![]);
    }
}

/// `parse_q_words(emit_q_words(ws))` gives `ws` back, for every list of strings.
pub proof fn law_q_words_round_trip(ws: Seq<Seq<char>>)
    ensures
        q_words_spec(q_words_text(ws)) == Ok::<Seq<Seq<char>>, (int, Seq<char>)>(ws),
{
    let x = q_words_text(ws);
    lemma_q_words_text_shape(ws);
    assert(trim_newlines(x) == x);
    lemma_q_words_text_reads(ws, false);
}

/// `parse_array(emit_array(ws))` gives `ws` back, for every list of strings.
pub proof fn law_array_round_trip(ws: Seq<Seq<char>>)
    ensures
        array_spec(array_text(ws)) == Ok::<Seq<Seq<char>>, (int, Seq<char>)>(ws),
{
    let x = array_text(ws);
    assert(x[0] == '(');
    assert(x.last() == ')');
    assert(trim_start_spaces(x) == x);
    assert(trim_end_spaces(x) == x);
    assert(trim_spaces(x) == x);
    let body = x.subrange(1, x.len() - 1);
    assert(body =~= q_words_text(ws));
    lemma_q_words_text_shape(ws);
    assert(trim_newlines(body) == body);
    lemma_q_words_text_reads(ws, true);
}

// ---- subscripts and keyed entries -------------------------------------------

/// A number's decimal spelling is digits, and reads back as the number.
pub proof fn lemma_decimal_text(n: nat)
    ensures
        decimal_text(n).len() >= 1,
        forall|i: int| 0 <= i < decimal_text(n).len() ==> is_digit(#[trigger] decimal_text(n)[i]),
        decimal_value(decimal_text(n)) == n,
    decreases n,
{
    let d = decimal_text(n);
    if n < 10 {
        assert(d.drop_last() =~= Seq::<char>::empty());
        assert(decimal_value(Seq::<char>::empty()) == 0);
        assert(d.last() as int == n + 48);
    } else {
        lemma_decimal_text(n / 10);
        let h = decimal_text(n / 10);
        assert(d.drop_last() =~= h);
        assert(d.last() as int == n % 10 + 48);
        assert forall|i: int| 0 <= i < d.len() implies is_digit(#[trigger] d[i]) by {
            if i < h.len() {
                assert(d[i] == h[i]);
            }
        }
        assert((n / 10) * 10 + n % 10 == n) by (nonlinear_arith);
        assert(decimal_value(d) == decimal_value(h) * 10 + (d.last() as int - '0' as int));
    }
}

/// Where an entry's text meets what follows it: the close, or a space and
/// the next entry.
pub open spec fn entry_follows(z: Seq<char>) -> bool {
    z.len() > 0 && (z[0] == ')' || (z[0] == ' ' && z.len() > 1 && z[1] == '['))
}

pub open spec fn gap(z: Seq<char>) -> int {
    if z[0] == ' ' {
        1
    } else {
        0
    }
}

proof fn lemma_gap(z: Seq<char>)
    requires
        entry_follows(z),
    ensures
        blank_run(z) == gap(z),
        ends_word(z, value_stops()),
{
    if z[0] == ' ' {
        assert(in_class(Class::Blank, z[0]));
        assert(!in_class(Class::Blank, z[1]));
        lemma_run_len_is(z, Class::Blank, 1);
        assert(value_stops()[0] == ' ');
    } else {
        assert(!in_class(Class::Blank, z[0]));
        lemma_run_len_is(z, Class::Blank, 0);
        assert(value_stops()[3] == ')');
    }
}

/// A subscript in brackets reads back as the number.
proof fn lemma_bracket_reads(k: usize, rest: Seq<char>)
    ensures
        bracket_scan(seq!['['] + decimal_text(k as nat) + seq![']'] + rest)
            == Ok::<(usize, int), (int, Seq<char>)>((k, decimal_text(k as nat).len() + 2int)),
{
    let d = decimal_text(k as nat);
    lemma_decimal_text(k as nat);
    let x = seq!['['] + d + seq![']'] + rest;
    assert(x.take(1) =~= seq!['[']);
    let y = x.skip(1);
    assert(y =~= d + seq![']'] + rest);
    assert forall|i: int| 0 <= i < d.len() implies in_class(Class::Digit, #[trigger] y[i]) by {
        assert(y[i] == d[i]);
    }
    assert(y[d.len() as int] == ']');
    lemma_run_len_is(y, Class::Digit, d.len() as int);
    assert(x.subrange(1, 1 + d.len() as int) =~= d);
    assert(x.skip(1 + d.len() as int).take(1) =~= seq![']']);
}

/// One indexed entry reads back, and the compound goes on after it.
proof fn lemma_indexed_entry(k: usize, v: Seq<char>, z: Seq<char>, acc: Seq<(usize, Seq<char>)>)
    requires
        entry_follows(z),
    ensures
        indexed_loop(indexed_item(k, v) + z, acc) == shift(
            indexed_loop(z.skip(gap(z)), acc.push((k, v))),
            indexed_item(k, v).len() + gap(z),
        ),
{
    let d = decimal_text(k as nat);
    let sv = scalar_text(v);
    let x = indexed_item(k, v) + z;
    assert(!has_prefix(x, seq![')'])) by {
        assert(x.take(1)[0] == '[');
    }
    assert(x =~= seq!['['] + d + seq![']'] + (seq!['='] + sv + z));
    lemma_bracket_reads(k, seq!['='] + sv + z);
    let kk: int = d.len() + 2int;
    assert(x.skip(kk).take(1) =~= seq!['=']);
    assert(x.skip(kk + 1) =~= sv + z);
    lemma_gap(z);
    lemma_scalar_word(v, z, value_stops());
    let n: int = kk + 1 + sv.len();
    assert(x.skip(n) =~= z);
    assert(x.skip(n + gap(z)) =~= z.skip(gap(z)));
}

/// The entries of an emitted indexed compound read back in order.
proof fn lemma_indexed_loop_reads(e: Seq<(usize, Seq<char>)>, acc: Seq<(usize, Seq<char>)>)
    ensures
        indexed_loop(spaced(indexed_items(e)) + seq![')'], acc) == Ok::<(Seq<(usize, Seq<char>)>, int), (int, Seq<char>)>(
            (acc + e, spaced(indexed_items(e)).len() + 1int),
        ),
    decreases e.len(),
{
    let items = indexed_items(e);
    let x = spaced(items) + seq![')'];
    if e.len() == 0 {
        assert(x =~= seq![')']);
        assert(x.take(1) =~= seq![')']);
        assert(acc + e =~= acc);
    } else {
        let z = if e.len() == 1 {
            seq![')']
        } else {
            seq![' '] + spaced(items.drop_first()) + seq![')']
        };
        assert(items.drop_first() =~= indexed_items(e.drop_first()));
        if e.len() > 1 {
            assert(spaced(items.drop_first())[0] == '[') by {
                let rest = items.drop_first();
                if rest.len() == 1 {
                    assert(spaced(rest) == rest[0]);
                } else {
                    assert(spaced(rest) == rest[0] + seq![' '] + spaced(rest.drop_first()));
                }
                assert(rest[0][0] == '[');
            }
        }
        assert(x =~= indexed_item(e[0].0, e[0].1) + z);
        lemma_indexed_entry(e[0].0, e[0].1, z, acc);
        if e.len() == 1 {
            assert(z.skip(0) =~= seq![')']);
            assert(seq![')'].take(1) =~= seq![')']);
            assert(acc.push((e[0].0, e[0].1)) =~= acc + e);
        } else {
            assert(z.skip(1) =~= spaced(indexed_items(e.drop_first())) + seq![')']);
            lemma_indexed_loop_reads(e.drop_first(), acc.push((e[0].0, e[0].1)));
            assert(acc.push((e[0].0, e[0].1)) + e.drop_first() =~= acc + e);
        }
    }
}

/// `parse_indexed(emit_indexed(m))` gives back a map with the same entries in
/// the same order.
pub proof fn law_indexed_round_trip(e: Seq<(usize, Seq<char>)>)
    requires
        distinct_keys(e),
    ensures
        indexed_spec(indexed_text(e)) == Ok::<Seq<(usize, Seq<char>)>, (int, Seq<char>)>(e),
{
    let x = indexed_text(e);
    assert(x.last() == ')');
    assert(trim_newlines(x) == x);
    assert(x.take(1) =~= seq!['(']);
    let y = x.skip(1);
    assert(y =~= spaced(indexed_items(e)) + seq![')']);
    assert(!in_class(Class::Blank, y[0])) by {
        if e.len() > 0 {
            let items = indexed_items(e);
            if items.len() == 1 {
                assert(spaced(items) == items[0]);
            } else {
                assert(spaced(items) == items[0] + seq![' '] + spaced(items.drop_first()));
            }
            assert(y[0] == '[');
        }
    }
    lemma_run_len_is(y, Class::Blank, 0);
    assert(y.skip(0) =~= y);
    lemma_indexed_loop_reads(e, Seq::<(usize, Seq<char>)>::empty());
    assert(Seq::<(usize, Seq<char>)>::empty() + e =~= e);
    lemma_insert_all_distinct(e);
}

/// One associative entry reads back, and the compound goes on after it.
proof fn lemma_assoc_entry(k: Seq<char>, v: Seq<char>, z: Seq<char>, acc: Seq<(Seq<char>, Seq<char>)>)
    requires
        entry_follows(z),
    ensures
        assoc_loop(assoc_item(k, v) + z, acc) == shift(
            assoc_loop(z.skip(gap(z)), acc.push((k, v))),
            assoc_item(k, v).len() + gap(z),
        ),
{
    let sk = scalar_text(k);
    let sv = scalar_text(v);
    let x = assoc_item(k, v) + z;
    assert(!has_prefix(x, seq![')'])) by {
        assert(x.take(1)[0] == '[');
    }
    assert(x.take(1) =~= seq!['[']);
    let tail = seq![']', '='] + sv + z;
    assert(x.skip(1) =~= sk + tail);
    assert(ends_word(tail, key_stops())) by {
        assert(key_stops()[0] == ']');
    }
    lemma_scalar_word(k, tail, key_stops());
    let a: int = 1int + sk.len();
    assert(x.skip(a).take(1) =~= seq![']']);
    assert(x.skip(a + 1).take(1) =~= seq!['=']);
    assert(x.skip(a + 2) =~= sv + z);
    lemma_gap(z);
    lemma_scalar_word(v, z, value_stops());
    let n: int = a + 2 + sv.len();
    assert(x.skip(n) =~= z);
    assert(x.skip(n + gap(z)) =~= z.skip(gap(z)));
}

/// The entries of an emitted associative compound read back in order.
proof fn lemma_assoc_loop_reads(e: Seq<(Seq<char>, Seq<char>)>, acc: Seq<(Seq<char>, Seq<char>)>)
    ensures
        assoc_loop(spaced(assoc_items(e)) + seq![')'], acc) == Ok::<(Seq<(Seq<char>, Seq<char>)>, int), (int, Seq<char>)>(
            (acc + e, spaced(assoc_items(e)).len() + 1int),
        ),
    decreases e.len(),
{
    let items = assoc_items(e);
    let x = spaced(items) + seq![')'];
    if e.len() == 0 {
        assert(x =~= seq![')']);
        assert(x.take(1) =~= seq![')']);
        assert(acc + e =~= acc);
    } else {
        let z = if e.len() == 1 {
            seq![')']
        } else {
            seq![' '] + spaced(items.drop_first()) + seq![')']
        };
        assert(items.drop_first() =~= assoc_items(e.drop_first()));
        if e.len() > 1 {
            assert(spaced(items.drop_first())[0] == '[') by {
                let rest = items.drop_first();
                if rest.len() == 1 {
                    assert(spaced(rest) == rest[0]);
                } else {
                    assert(spaced(rest) == rest[0] + seq![' '] + spaced(rest.drop_first()));
                }
                assert(rest[0][0] == '[');
            }
        }
        assert(x =~= assoc_item(e[0].0, e[0].1) + z);
        lemma_assoc_entry(e[0].0, e[0].1, z, acc);
        if e.len() == 1 {
            assert(z.skip(0) =~= seq![')']);
            assert(seq![')'].take(1) =~= seq![')']);
            assert(acc.push((e[0].0, e[0].1)) =~= acc + e);
        } else {
            assert(z.skip(1) =~= spaced(assoc_items(e.drop_first())) + seq![')']);
            lemma_assoc_loop_reads(e.drop_first(), acc.push((e[0].0, e[0].1)));
            assert(acc.push((e[0].0, e[0].1)) + e.drop_first() =~= acc + e);
        }
    }
}

/// `parse_assoc(emit_assoc(m))` gives back a map with the same entries in
/// the same order.
pub proof fn law_assoc_round_trip(e: Seq<(Seq<char>, Seq<char>)>)
    requires
        distinct_keys(e),
    ensures
        assoc_spec(assoc_text(e)) == Ok::<Seq<(Seq<char>, Seq<char>)>, (int, Seq<char>)>(e),
{
    let x = assoc_text(e);
    assert(x.last() == ')');
    assert(trim_newlines(x) == x);
    assert(x.take(1) =~= seq!['(']);
    let y = x.skip(1);
    assert(y =~= spaced(assoc_items(e)) + seq![')']);
    assert(!in_class(Class::Blank, y[0])) by {
        if e.len() > 0 {
            let items = assoc_items(e);
            if items.len() == 1 {
                assert(spaced(items) == items[0]);
            } else {
                assert(spaced(items) == items[0] + seq![' '] + spaced(items.drop_first()));
            }
            assert(y[0] == '[');
        }
    }
    lemma_run_len_is(y, Class::Blank, 0);
    assert(y.skip(0) =~= y);
    lemma_assoc_loop_reads(e, Seq::<(Seq<char>, Seq<char>)>::empty());
    assert(Seq::<(Seq<char>, Seq<char>)>::empty() + e =~= e);
    lemma_insert_all_distinct(e);
}

} // verus!
