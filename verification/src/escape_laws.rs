//! What a backslash does, in the two places bash writes one: inside a
//! double-quoted value, and outside quotes in a word `${var@Q}` prints.

use vstd::prelude::*;

use crate::grammar::{
    double_loop, double_scan, in_class, lemma_run_len_is, quoted_scan, segment_scan, shift,
    whole, word_rest, word_scan, Class,
};
use crate::parser::{scalar_spec, trim_newlines, value_stops};
use crate::primitives::{single_read, word_read, WordStep};

verus! {

// ---- inside double quotes --------------------------------------------------------

/// Inside double quotes a backslash escapes `$`, `"`, `\` and `` ` ``: each
/// stands for itself alone. A newline after the backslash joins two lines
/// and leaves nothing; any other character keeps its backslash. Either way
/// the reading goes on two characters later, whatever follows.
pub proof fn law_double_backslash(c: char, t: Seq<char>, acc: Seq<char>)
    ensures
        double_loop(seq!['\\', c] + t, acc) == shift(
            double_loop(
                t,
                if c == '$' || c == '"' || c == '\\' || c == '`' {
                    acc.push(c)
                } else if c == '\n' {
                    acc
                } else {
                    acc.push('\\').push(c)
                },
            ),
            2,
        ),
{
    let x = seq!['\\', c] + t;
    assert(x[0] == '\\');
    assert(x[1] == c);
    assert(x.skip(2) =~= t);
}

/// Inside double quotes, text with neither a backslash nor a quote reads as
/// itself, and the closing quote ends the value.
pub proof fn law_double_plain(a: Seq<char>, t: Seq<char>, acc: Seq<char>)
    requires
        forall|i: int| 0 <= i < a.len() ==> a[i] != '\\' && a[i] != '"',
    ensures
        double_loop(a + seq!['"'] + t, acc) == Ok::<(Seq<char>, int), (int, Seq<char>)>(
            (acc + a, a.len() + 1int),
        ),
    decreases a.len(),
{
    let x = a + seq!['"'] + t;
    if a.len() == 0 {
        assert(x[0] == '"');
        assert(acc + a =~= acc);
    } else {
        assert(x[0] == a[0]);
        let rest = a.drop_first();
        assert(x.skip(1) =~= rest + seq!['"'] + t);
        law_double_plain(rest, t, acc.push(a[0]));
        assert(acc.push(a[0]) + rest =~= acc + a);
    }
}

/// `parse_scalar` of `"\c"`: `"\`"` reads as a backtick, `"\$"` as a dollar
/// sign, `"\""` as a quote and `"\\"` as one backslash; `"\x"` as a
/// backslash and `x` for any other `x` but a newline, which reads as
/// nothing.
pub proof fn law_scalar_double_escape(c: char)
    ensures
        scalar_spec(seq!['"', '\\', c, '"']) == Ok::<Seq<char>, (int, Seq<char>)>(
            if c == '$' || c == '"' || c == '\\' || c == '`' {
                seq![c]
            } else if c == '\n' {
                seq![]
            } else {
                seq!['\\', c]
            },
        ),
{
    let x = seq!['"', '\\', c, '"'];
    let v: Seq<char> = if c == '$' || c == '"' || c == '\\' || c == '`' {
        seq![c]
    } else if c == '\n' {
        seq![]
    } else {
        seq!['\\', c]
    };
    assert(trim_newlines(x) == x);
    let body = x.skip(1);
    assert(body =~= seq!['\\', c] + seq!['"']);
    law_double_backslash(c, seq!['"'], seq![]);
    assert(seq![c] =~= Seq::<char>::empty().push(c));
    assert(seq!['\\', c] =~= Seq::<char>::empty().push('\\').push(c));
    assert(double_loop(seq!['"'], v) == Ok::<(Seq<char>, int), (int, Seq<char>)>((v, 1)));
    assert(x.take(1) =~= seq!['"']);
    assert(double_scan(x) == Ok::<(Seq<char>, int), (int, Seq<char>)>((v, 4)));
    reveal(quoted_scan);
    assert(x.take(2)[0] == '"');
    assert(quoted_scan(x) == Ok::<Option<(Seq<char>, int)>, (int, Seq<char>)>(Some((v, 4))));
    reveal(segment_scan);
    reveal(word_scan);
    let e = x.skip(4);
    assert(e =~= Seq::<char>::empty());
    assert(quoted_scan(e) == Ok::<Option<(Seq<char>, int)>, (int, Seq<char>)>(None));
    assert(segment_scan(e, value_stops()) == Ok::<Option<(Seq<char>, int)>, (int, Seq<char>)>(
        None,
    ));
    assert(word_rest(e, value_stops(), v) == (v, 0int));
    assert(word_scan(x, value_stops()) == Ok::<(Seq<char>, int), (int, Seq<char>)>((v, 4)));
    assert(whole(word_scan(x, value_stops()), 4) == Ok::<Seq<char>, (int, Seq<char>)>(v));
}

// ---- outside quotes, in a `@Q` word ----------------------------------------------

/// A word's reading moved `n` characters on: the same word, stopping `n`
/// characters later.
pub open spec fn moved(s: WordStep, n: int) -> WordStep {
    match s {
        WordStep::Read(w, k) => WordStep::Read(w, k + n),
        WordStep::Refused(e) => WordStep::Refused(e),
    }
}

/// Reading a word from character `k` is reading it from the text that
/// starts there.
proof fn lemma_word_read_from(s: Seq<char>, k: int, acc: Seq<char>)
    requires
        0 <= k <= s.len(),
    ensures
        word_read(s, k, acc) == moved(word_read(s.skip(k), 0, acc), k),
    decreases s.len() - k, 1int,
{
    let r = s.skip(k);
    if k < s.len() {
        assert(r[0] == s[k]);
        if k + 1 < s.len() {
            assert(r[1] == s[k + 1]);
        }
        if s[k] == '$' && k + 1 < s.len() && s[k + 1] == '\'' {
            assert(r[1] == s[k + 1]);
            assert(r.skip(2) =~= s.skip(k + 2));
            crate::primitives::lemma_ansi_read_bounds(s.skip(k + 2), 0, seq![]);
            match crate::primitives::ansi_read(s.skip(k + 2), 0, seq![]) {
                Ok((w, n)) => lemma_word_read_step(s, k, 2 + n, acc + w),
                Err(_) => {},
            }
        } else if s[k] == '\'' {
            assert(r.skip(1) =~= s.skip(k + 1));
            crate::grammar::lemma_run_len_bounds(s.skip(k + 1), Class::NotQuote);
            match single_read(s.skip(k + 1)) {
                Ok((w, n)) => lemma_word_read_step(s, k, 1 + n, acc + w),
                Err(_) => {},
            }
        } else if s[k] == '\\' && k + 1 < s.len() {
            assert(r[1] == s[k + 1]);
            lemma_word_read_step(s, k, 2, acc.push(s[k + 1]));
        } else if crate::primitives::word_char(s[k]) {
            assert(r.skip(0) =~= r);
            let n = crate::primitives::word_run(s.skip(k));
            crate::primitives::lemma_word_run_bounds(s.skip(k));
            assert(r.subrange(0, n) =~= s.subrange(k, k + n));
            lemma_word_read_step(s, k, n, acc + s.subrange(k, k + n));
        }
    } else {
        assert(r.len() == 0);
    }
}

/// One step of the reading, taken at character `k` of the text and at the
/// start of what follows `k`, lands at the same place.
proof fn lemma_word_read_step(s: Seq<char>, k: int, n: int, acc: Seq<char>)
    requires
        0 <= k,
        0 < n,
        k + n <= s.len(),
    ensures
        word_read(s, k + n, acc) == moved(word_read(s.skip(k), n, acc), k),
    decreases s.len() - k, 0int,
{
    lemma_word_read_from(s, k + n, acc);
    lemma_word_read_from(s.skip(k), n, acc);
    assert(s.skip(k).skip(n) =~= s.skip(k + n));
}

/// Outside quotes a backslash escapes whatever character follows it: the
/// character joins the word as itself, and the word goes on after it. So
/// `'it'\''s'` reads as `it's`, the way `${var@Q}` spells a quote inside a
/// string.
pub proof fn law_word_backslash(c: char, t: Seq<char>, acc: Seq<char>)
    ensures
        word_read(seq!['\\', c] + t, 0, acc) == moved(word_read(t, 0, acc.push(c)), 2),
{
    let x = seq!['\\', c] + t;
    assert(x[0] == '\\');
    assert(x[1] == c);
    lemma_word_read_from(x, 2, acc.push(c));
    assert(x.skip(2) =~= t);
}

/// The `@Q` spelling of a string holding one quote, `'a'\''b'` for `a'b`,
/// reads back as that string, whole: for every `a` and `b` without quotes.
pub proof fn law_quote_inside_word(a: Seq<char>, b: Seq<char>)
    requires
        forall|i: int| 0 <= i < a.len() ==> a[i] != '\'',
        forall|i: int| 0 <= i < b.len() ==> b[i] != '\'',
    ensures
        word_read(
            seq!['\''] + a + seq!['\'', '\\', '\'', '\''] + b + seq!['\''],
            0,
            seq![],
        ) == WordStep::Read(a + seq!['\''] + b, a.len() + b.len() + 6int),
{
    let tail = seq!['\''] + b + seq!['\''];
    let x = seq!['\''] + a + seq!['\'', '\\', '\''] + tail;
    assert(x =~= seq!['\''] + a + seq!['\'', '\\', '\'', '\''] + b + seq!['\'']);
    let ra = x.skip(1);
    assert forall|i: int| 0 <= i < a.len() implies in_class(Class::NotQuote, #[trigger] ra[i]) by {
        assert(ra[i] == a[i]);
    }
    assert(ra[a.len() as int] == '\'');
    lemma_run_len_is(ra, Class::NotQuote, a.len() as int);
    assert(ra.take(a.len() as int) =~= a);
    assert(x[0] == '\'');
    assert(Seq::<char>::empty() + a =~= a);
    let j: int = a.len() + 2int;
    lemma_word_read_from(x, j, a);
    let rest = x.skip(j);
    assert(rest =~= seq!['\\', '\''] + tail);
    law_word_backslash('\'', tail, a);
    let rb = tail.skip(1);
    assert forall|i: int| 0 <= i < b.len() implies in_class(Class::NotQuote, #[trigger] rb[i]) by {
        assert(rb[i] == b[i]);
    }
    assert(rb[b.len() as int] == '\'');
    lemma_run_len_is(rb, Class::NotQuote, b.len() as int);
    assert(rb.take(b.len() as int) =~= b);
    assert(tail[0] == '\'');
    assert(a.push('\'') + rb.take(b.len() as int) =~= a.push('\'') + b);
    let m: int = b.len() + 2int;
    lemma_word_read_from(tail, m, a.push('\'') + b);
    assert(tail.skip(m) =~= Seq::<char>::empty());
    assert(a.push('\'') + b =~= a + seq!['\''] + b);
}

/// A single-quoted segment holds its text as it stands, and the word goes
/// on after its closing quote.
pub proof fn law_word_single_quoted(a: Seq<char>, t: Seq<char>, acc: Seq<char>)
    requires
        forall|i: int| 0 <= i < a.len() ==> a[i] != '\'',
    ensures
        word_read(seq!['\''] + a + seq!['\''] + t, 0, acc) == moved(
            word_read(t, 0, acc + a),
            a.len() + 2int,
        ),
{
    let x = seq!['\''] + a + seq!['\''] + t;
    let r = x.skip(1);
    assert forall|i: int| 0 <= i < a.len() implies in_class(Class::NotQuote, #[trigger] r[i]) by {
        assert(r[i] == a[i]);
    }
    assert(r[a.len() as int] == '\'');
    lemma_run_len_is(r, Class::NotQuote, a.len() as int);
    assert(r.take(a.len() as int) =~= a);
    assert(x[0] == '\'');
    let j: int = a.len() + 2int;
    lemma_word_read_from(x, j, acc + a);
    assert(x.skip(j) =~= t);
}

/// Whitespace ends a word where it stands: nothing of it is read.
pub proof fn law_word_ends_at_space(c: char, t: Seq<char>, acc: Seq<char>)
    requires
        c == ' ' || c == '\t' || c == '\n',
    ensures
        word_read(seq![c] + t, 0, acc) == WordStep::Read(acc, 0),
{
    let x = seq![c] + t;
    assert(x[0] == c);
}

} // verus!
