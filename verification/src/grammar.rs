//! How bash spells one word, stated over the text that is still to be read.
//!
//! Every reading function here takes the remaining text `r` and says what a
//! reader starting there does: `Ok((value, n))` when it reads `value` and
//! consumes `n` characters, `Err((n, message))` when it refuses `n`
//! characters in, with `message`.

use vstd::prelude::*;

use crate::text::{debug_str, is_scalar_value};

verus! {

/// What reading gives: a value and how many characters it took, or the
/// offset and the message of a refusal.
pub type Scan<V> = Result<(V, int), (int, Seq<char>)>;

/// What reading an optional form gives: `Ok(None)` when it is not there.
pub type OptScan<V> = Result<Option<(V, int)>, (int, Seq<char>)>;

/// A scan that started `k` characters further back.
pub open spec fn shift<V>(s: Scan<V>, k: int) -> Scan<V> {
    match s {
        Ok((v, n)) => Ok((v, n + k)),
        Err((n, m)) => Err((n + k, m)),
    }
}

pub open spec fn opt<V>(s: Scan<V>) -> OptScan<V> {
    match s {
        Ok(x) => Ok(Some(x)),
        Err(e) => Err(e),
    }
}

pub open spec fn has_prefix(r: Seq<char>, t: Seq<char>) -> bool {
    t.len() <= r.len() && r.take(t.len() as int) == t
}

// ---- messages -------------------------------------------------------------

pub open spec fn expected_msg(t: Seq<char>) -> Seq<char> {
    "expected "@ + debug_str(t)
}

pub open spec fn trailing_msg() -> Seq<char> {
    "trailing input"@
}

pub open spec fn unterminated_single_msg() -> Seq<char> {
    "unterminated ' quote"@
}

pub open spec fn unterminated_double_msg() -> Seq<char> {
    "unterminated \" quote"@
}

pub open spec fn unterminated_ansi_msg() -> Seq<char> {
    "unterminated $' quote"@
}

pub open spec fn backslash_end_msg() -> Seq<char> {
    "a backslash at the end of the input"@
}

pub open spec fn control_end_msg() -> Seq<char> {
    "\\c with nothing after it"@
}

pub open spec fn hex_byte_msg() -> Seq<char> {
    "\\x wants one or two hex digits"@
}

pub open spec fn unicode_digits_msg() -> Seq<char> {
    "a unicode escape wants hex digits"@
}

pub open spec fn not_scalar_msg() -> Seq<char> {
    "not a Unicode scalar value"@
}

pub open spec fn octal_msg(digits: Seq<char>) -> Seq<char> {
    "octal escape \\"@ + digits + " is above \\377"@
}

pub open spec fn expected_word_msg() -> Seq<char> {
    "expected a word"@
}

// ---- characters -----------------------------------------------------------

pub open spec fn is_digit(c: char) -> bool {
    '0' <= c && c <= '9'
}

pub open spec fn is_octal(c: char) -> bool {
    '0' <= c && c <= '7'
}

pub open spec fn is_hex(c: char) -> bool {
    ('0' <= c && c <= '9') || ('a' <= c && c <= 'f') || ('A' <= c && c <= 'F')
}

pub open spec fn hex_digit(c: char) -> int {
    if '0' <= c && c <= '9' {
        c as int - '0' as int
    } else if 'a' <= c && c <= 'f' {
        c as int - 'a' as int + 10
    } else {
        c as int - 'A' as int + 10
    }
}

/// Spaces, tabs and newlines: what `ws0` skips.
pub open spec fn is_blank(c: char) -> bool {
    c == ' ' || c == '\t' || c == '\n'
}

/// The value of hex digits, most significant first.
pub open spec fn hex_value(d: Seq<char>) -> int
    decreases d.len(),
{
    if d.len() == 0 {
        0
    } else {
        hex_value(d.drop_last()) * 16 + hex_digit(d.last())
    }
}

/// The value of octal digits, most significant first.
pub open spec fn octal_value(d: Seq<char>) -> int
    decreases d.len(),
{
    if d.len() == 0 {
        0
    } else {
        octal_value(d.drop_last()) * 8 + (d.last() as int - '0' as int)
    }
}

/// The value of decimal digits, most significant first.
pub open spec fn decimal_value(d: Seq<char>) -> int
    decreases d.len(),
{
    if d.len() == 0 {
        0
    } else {
        decimal_value(d.drop_last()) * 10 + (d.last() as int - '0' as int)
    }
}

/// The character classes a run is taken over.
pub enum Class {
    NotQuote,
    Blank,
    Digit,
    Hex,
    Octal,
}

pub open spec fn in_class(k: Class, c: char) -> bool {
    match k {
        Class::NotQuote => c != '\'',
        Class::Blank => is_blank(c),
        Class::Digit => is_digit(c),
        Class::Hex => is_hex(c),
        Class::Octal => is_octal(c),
    }
}

/// How many leading characters of `r` are in class `p`.
pub open spec fn run_len(r: Seq<char>, p: Class) -> int
    decreases r.len(),
{
    if r.len() == 0 || !in_class(p, r[0]) {
        0
    } else {
        1 + run_len(r.skip(1), p)
    }
}

/// How many leading characters of `r` are in class `p`, taking at most `w`.
pub open spec fn bounded_run(r: Seq<char>, p: Class, w: int) -> int
    decreases r.len(),
{
    if w <= 0 || r.len() == 0 || !in_class(p, r[0]) {
        0
    } else {
        1 + bounded_run(r.skip(1), p, w - 1)
    }
}

pub open spec fn blank_run(r: Seq<char>) -> int {
    run_len(r, Class::Blank)
}

pub open spec fn digit_run(r: Seq<char>) -> int {
    run_len(r, Class::Digit)
}

pub open spec fn hex_run(r: Seq<char>, w: int) -> int {
    bounded_run(r, Class::Hex, w)
}

pub open spec fn octal_run(r: Seq<char>, w: int) -> int {
    bounded_run(r, Class::Octal, w)
}

/// The character of a byte value, as `u8 as char` gives it.
pub open spec fn byte_char(v: int) -> char {
    (v as u8) as char
}

/// What `\cX` stands for: the control character of `X`.
pub open spec fn control_char(c: char) -> char {
    (((c as u32) & 0x1F) as u8) as char
}

// ---- the quoting forms ----------------------------------------------------

/// `'…'`: no escapes; everything up to the next `'`.
pub open spec fn single_scan(r: Seq<char>) -> Scan<Seq<char>> {
    if !has_prefix(r, seq!['\'']) {
        Err((0, expected_msg(seq!['\''])))
    } else {
        let n = run_len(r.skip(1), Class::NotQuote);
        if 1 + n < r.len() {
            Ok((r.subrange(1, 1 + n), n + 2))
        } else {
            Err((r.len() as int, unterminated_single_msg()))
        }
    }
}

/// The characters a backslash escapes inside double quotes.
pub open spec fn double_escapable(c: char) -> bool {
    c == '$' || c == '"' || c == '\\' || c == '`'
}

/// The body of a `"…"` after its opening quote, with `acc` read so far.
pub open spec fn double_loop(r: Seq<char>, acc: Seq<char>) -> Scan<Seq<char>>
    decreases r.len(),
{
    if r.len() == 0 {
        Err((0, unterminated_double_msg()))
    } else if r[0] == '"' {
        Ok((acc, 1))
    } else if r[0] == '\\' {
        if r.len() < 2 {
            Err((1, backslash_end_msg()))
        } else {
            let e = r[1];
            let next = if double_escapable(e) {
                acc.push(e)
            } else if e == '\n' {
                acc
            } else {
                acc.push('\\').push(e)
            };
            shift(double_loop(r.skip(2), next), 2)
        }
    } else {
        shift(double_loop(r.skip(1), acc.push(r[0])), 1)
    }
}

/// `"…"`: `\$ \" \\ \`` and a line continuation.
pub open spec fn double_scan(r: Seq<char>) -> Scan<Seq<char>> {
    if !has_prefix(r, seq!['"']) {
        Err((0, expected_msg(seq!['"'])))
    } else {
        shift(double_loop(r.skip(1), seq![]), 1)
    }
}

/// A `\u` or `\U` escape of at most `w` hex digits, read from `r`.
pub open spec fn unicode_scan(r: Seq<char>, w: int, acc: Seq<char>) -> Scan<Seq<char>> {
    let n = hex_run(r, w);
    if n == 0 {
        Err((0, unicode_digits_msg()))
    } else {
        let v = hex_value(r.take(n));
        if is_scalar_value(v) {
            Ok((acc.push(v as char), n))
        } else {
            Err((n, not_scalar_msg()))
        }
    }
}

/// What follows `\c` inside `$'…'`, with `r` the text after `c`.
pub open spec fn escape_scan(r: Seq<char>, c: char, acc: Seq<char>) -> Scan<Seq<char>> {
    if c == 'a' {
        Ok((acc.push('\x07'), 0))
    } else if c == 'b' {
        Ok((acc.push('\x08'), 0))
    } else if c == 'e' || c == 'E' {
        Ok((acc.push('\x1B'), 0))
    } else if c == 'f' {
        Ok((acc.push('\x0C'), 0))
    } else if c == 'n' {
        Ok((acc.push('\n'), 0))
    } else if c == 'r' {
        Ok((acc.push('\r'), 0))
    } else if c == 't' {
        Ok((acc.push('\t'), 0))
    } else if c == 'v' {
        Ok((acc.push('\x0B'), 0))
    } else if c == '\\' || c == '\'' || c == '"' || c == '?' {
        Ok((acc.push(c), 0))
    } else if c == 'c' {
        if r.len() == 0 {
            Err((0, control_end_msg()))
        } else {
            Ok((acc.push(control_char(r[0])), 1))
        }
    } else if c == 'x' {
        let n = hex_run(r, 2);
        if n == 0 {
            Err((0, hex_byte_msg()))
        } else {
            Ok((acc.push(byte_char(hex_value(r.take(n)))), n))
        }
    } else if c == 'u' {
        unicode_scan(r, 4, acc)
    } else if c == 'U' {
        unicode_scan(r, 8, acc)
    } else if is_octal(c) {
        let n = octal_run(r, 2);
        let digits = seq![c] + r.take(n);
        let v = octal_value(digits);
        if v <= 255 {
            Ok((acc.push(byte_char(v)), n))
        } else {
            Err((n, octal_msg(digits)))
        }
    } else {
        Ok((acc.push('\\').push(c), 0))
    }
}

/// The body of a `$'…'` after its opening `$'`, with `acc` read so far.
pub open spec fn ansi_loop(r: Seq<char>, acc: Seq<char>) -> Scan<Seq<char>>
    decreases r.len(),
{
    if r.len() == 0 {
        Err((0, unterminated_ansi_msg()))
    } else if r[0] == '\'' {
        Ok((acc, 1))
    } else if r[0] == '\\' {
        if r.len() < 2 {
            Err((1, backslash_end_msg()))
        } else {
            match escape_scan(r.skip(2), r[1], acc) {
                Err((k, m)) => Err((k + 2, m)),
                Ok((next, k)) => if 0 <= k && k <= r.len() - 2 {
                    shift(ansi_loop(r.skip(2 + k), next), 2 + k)
                } else {
                    Ok((next, k + 2))
                },
            }
        }
    } else {
        shift(ansi_loop(r.skip(1), acc.push(r[0])), 1)
    }
}

/// Unquoted text up to a stop character, with `acc` read so far. A backslash
/// takes the next character whatever it is, a backslash-newline is a line
/// continuation, and a backslash at the very end is left unread.
pub open spec fn bare_loop(r: Seq<char>, stops: Seq<char>, acc: Seq<char>) -> (Seq<char>, int)
    decreases r.len(),
{
    if r.len() == 0 {
        (acc, 0)
    } else if r[0] == '\'' || r[0] == '"' || r[0] == '$' {
        (acc, 0)
    } else if r[0] == '\\' {
        if r.len() < 2 {
            (acc, 0)
        } else {
            let next = if r[1] == '\n' {
                acc
            } else {
                acc.push(r[1])
            };
            let (w, k) = bare_loop(r.skip(2), stops, next);
            (w, k + 2)
        }
    } else if stops.contains(r[0]) {
        (acc, 0)
    } else {
        let (w, k) = bare_loop(r.skip(1), stops, acc.push(r[0]));
        (w, k + 1)
    }
}

/// Unquoted text; nothing at all is a refusal.
pub open spec fn bare_scan(r: Seq<char>, stops: Seq<char>) -> Scan<Seq<char>> {
    let (w, k) = bare_loop(r, stops, seq![]);
    if w.len() == 0 {
        Err((k, expected_word_msg()))
    } else {
        Ok((w, k))
    }
}

/// One of the quoting forms, or `None` where the text does not start one.
#[verifier::opaque]
pub open spec fn quoted_scan(r: Seq<char>) -> OptScan<Seq<char>> {
    if has_prefix(r, seq!['$', '\'']) {
        opt(shift(ansi_loop(r.skip(2), seq![]), 2))
    } else if has_prefix(r, seq!['\'']) {
        opt(single_scan(r))
    } else if has_prefix(r, seq!['"']) {
        opt(double_scan(r))
    } else if has_prefix(r, seq!['$', '"']) {
        opt(shift(double_scan(r.skip(1)), 1))
    } else {
        Ok(None)
    }
}

/// A segment after the first: a quoting form, more bare text, or nothing.
#[verifier::opaque]
pub open spec fn segment_scan(r: Seq<char>, stops: Seq<char>) -> OptScan<Seq<char>> {
    match quoted_scan(r) {
        Err(e) => Err(e),
        Ok(Some(x)) => Ok(Some(x)),
        Ok(None) => if r.len() > 0 && (r[0] == '\\' || !stops.contains(r[0])) {
            opt(bare_scan(r, stops))
        } else {
            Ok(None)
        },
    }
}

/// Every adjacent segment that still belongs to a word; one that will not
/// read ends the word, unread.
pub open spec fn word_rest(r: Seq<char>, stops: Seq<char>, acc: Seq<char>) -> (Seq<char>, int)
    decreases r.len(),
{
    match segment_scan(r, stops) {
        Ok(Some((t, k))) => if 0 < k && k <= r.len() {
            let (w, m) = word_rest(r.skip(k), stops, acc + t);
            (w, m + k)
        } else {
            (acc + t, k)
        },
        _ => (acc, 0),
    }
}

/// One word: a first segment, which must be there, then every adjacent one.
#[verifier::opaque]
pub open spec fn word_scan(r: Seq<char>, stops: Seq<char>) -> Scan<Seq<char>> {
    let first = match quoted_scan(r) {
        Err(e) => Err(e),
        Ok(Some(x)) => Ok(x),
        Ok(None) => bare_scan(r, stops),
    };
    match first {
        Err(e) => Err(e),
        Ok((t, k)) => if 0 <= k && k <= r.len() {
            let (w, m) = word_rest(r.skip(k), stops, t);
            Ok((w, k + m))
        } else {
            Ok((t, k))
        },
    }
}

/// `text`, which must be next.
pub open spec fn lit_scan(r: Seq<char>, t: Seq<char>) -> Scan<()> {
    if has_prefix(r, t) {
        Ok(((), t.len() as int))
    } else {
        Err((0, expected_msg(t)))
    }
}

/// A grammar over a whole text: what it leaves unread is a refusal.
pub open spec fn whole<V>(s: Scan<V>, len: int) -> Result<V, (int, Seq<char>)> {
    match s {
        Ok((v, n)) => if n == len {
            Ok(v)
        } else {
            Err((n, trailing_msg()))
        },
        Err(e) => Err(e),
    }
}

// ---- lemmas ---------------------------------------------------------------

/// At a `'`, the quoting form is the single-quoted one.
pub proof fn lemma_quoted_at_single(x: Seq<char>)
    requires
        x.len() > 0,
        x[0] == '\'',
    ensures
        quoted_scan(x) == opt(single_scan(x)),
{
    reveal(quoted_scan);
    assert(x.take(1) =~= seq!['\'']);
    if x.len() >= 2 {
        assert(x.take(2)[0] == '\'');
    }
}

/// At a `$'`, the quoting form is the ANSI-C one.
pub proof fn lemma_quoted_at_ansi(x: Seq<char>)
    requires
        x.len() >= 2,
        x[0] == '$',
        x[1] == '\'',
    ensures
        quoted_scan(x) == opt(shift(ansi_loop(x.skip(2), seq![]), 2)),
{
    reveal(quoted_scan);
    assert(x.take(2) =~= seq!['$', '\'']);
}

/// Where no quoting form starts, there is none.
pub proof fn lemma_quoted_none(x: Seq<char>)
    requires
        x.len() > 0,
        x[0] != '$',
        x[0] != '\'',
        x[0] != '"',
    ensures
        quoted_scan(x) == Ok::<Option<(Seq<char>, int)>, (int, Seq<char>)>(None),
{
    reveal(quoted_scan);
    assert(x.take(1)[0] == x[0]);
    if x.len() >= 2 {
        assert(x.take(2)[0] == x[0]);
    }
}

/// A quoting form is a segment.
pub proof fn lemma_segment_quoted(x: Seq<char>, stops: Seq<char>)
    requires
        quoted_scan(x) != Ok::<Option<(Seq<char>, int)>, (int, Seq<char>)>(None),
    ensures
        segment_scan(x, stops) == quoted_scan(x),
{
    reveal(segment_scan);
}

/// Without a quoting form, a segment is bare text or nothing.
pub proof fn lemma_segment_unquoted(x: Seq<char>, stops: Seq<char>)
    requires
        quoted_scan(x) == Ok::<Option<(Seq<char>, int)>, (int, Seq<char>)>(None),
    ensures
        segment_scan(x, stops) == (if x.len() > 0 && (x[0] == '\\' || !stops.contains(x[0])) {
            opt(bare_scan(x, stops))
        } else {
            Ok(None)
        }),
{
    reveal(segment_scan);
}

pub proof fn lemma_run_len_bounds(r: Seq<char>, p: Class)
    ensures
        0 <= run_len(r, p) <= r.len(),
        forall|i: int| 0 <= i < run_len(r, p) ==> in_class(p, #[trigger] r[i]),
        run_len(r, p) < r.len() ==> !in_class(p, r[run_len(r, p)]),
    decreases r.len(),
{
    if r.len() > 0 && in_class(p, r[0]) {
        lemma_run_len_bounds(r.skip(1), p);
        assert forall|i: int| 0 <= i < run_len(r, p) implies in_class(p, #[trigger] r[i]) by {
            if i > 0 {
                assert(r[i] == r.skip(1)[i - 1]);
            }
        }
    }
}

/// A run is pinned down by where it stops.
pub proof fn lemma_run_len_is(r: Seq<char>, p: Class, n: int)
    requires
        0 <= n <= r.len(),
        forall|i: int| 0 <= i < n ==> in_class(p, #[trigger] r[i]),
        n < r.len() ==> !in_class(p, r[n]),
    ensures
        run_len(r, p) == n,
    decreases r.len(),
{
    if n > 0 {
        assert(in_class(p, r[0]));
        assert forall|i: int| 0 <= i < n - 1 implies in_class(p, #[trigger] r.skip(1)[i]) by {
            assert(in_class(p, r[i + 1]));
        }
        lemma_run_len_is(r.skip(1), p, n - 1);
    }
}

pub proof fn lemma_bounded_run_bounds(r: Seq<char>, p: Class, w: int)
    ensures
        0 <= bounded_run(r, p, w) <= r.len(),
        w >= 0 ==> bounded_run(r, p, w) <= w,
        forall|i: int| 0 <= i < bounded_run(r, p, w) ==> in_class(p, #[trigger] r[i]),
    decreases r.len(),
{
    if w > 0 && r.len() > 0 && in_class(p, r[0]) {
        lemma_bounded_run_bounds(r.skip(1), p, w - 1);
        assert forall|i: int| 0 <= i < bounded_run(r, p, w) implies in_class(p, #[trigger] r[i]) by {
            if i > 0 {
                assert(r[i] == r.skip(1)[i - 1]);
            }
        }
    }
}

pub proof fn lemma_bounded_run_is(r: Seq<char>, p: Class, w: int, n: int)
    requires
        0 <= n <= r.len(),
        n <= w,
        forall|i: int| 0 <= i < n ==> in_class(p, #[trigger] r[i]),
        n < w && n < r.len() ==> !in_class(p, r[n]),
    ensures
        bounded_run(r, p, w) == n,
    decreases r.len(),
{
    if n > 0 {
        assert(in_class(p, r[0]));
        assert forall|i: int| 0 <= i < n - 1 implies in_class(p, #[trigger] r.skip(1)[i]) by {
            assert(in_class(p, r[i + 1]));
        }
        lemma_bounded_run_is(r.skip(1), p, w - 1, n - 1);
    }
}

pub proof fn lemma_bare_loop_bounds(r: Seq<char>, stops: Seq<char>, acc: Seq<char>)
    ensures
        0 <= bare_loop(r, stops, acc).1 <= r.len(),
        bare_loop(r, stops, acc).0.len() >= acc.len(),
        bare_loop(r, stops, acc).0.len() > acc.len() ==> bare_loop(r, stops, acc).1 > 0,
        bare_loop(r, stops, acc).0.len() <= acc.len() + bare_loop(r, stops, acc).1,
    decreases r.len(),
{
    if r.len() == 0 {
    } else if r[0] == '\'' || r[0] == '"' || r[0] == '$' {
    } else if r[0] == '\\' {
        if r.len() >= 2 {
            let next = if r[1] == '\n' {
                acc
            } else {
                acc.push(r[1])
            };
            lemma_bare_loop_bounds(r.skip(2), stops, next);
        }
    } else if stops.contains(r[0]) {
    } else {
        lemma_bare_loop_bounds(r.skip(1), stops, acc.push(r[0]));
    }
}

pub proof fn lemma_double_loop_bounds(r: Seq<char>, acc: Seq<char>)
    ensures
        match double_loop(r, acc) {
            Ok((w, k)) => 0 < k <= r.len() && w.len() <= acc.len() + k,
            Err((k, _)) => 0 <= k <= r.len(),
        },
    decreases r.len(),
{
    if r.len() > 0 && r[0] != '"' {
        if r[0] == '\\' {
            if r.len() >= 2 {
                let e = r[1];
                let next = if double_escapable(e) {
                    acc.push(e)
                } else if e == '\n' {
                    acc
                } else {
                    acc.push('\\').push(e)
                };
                lemma_double_loop_bounds(r.skip(2), next);
            }
        } else {
            lemma_double_loop_bounds(r.skip(1), acc.push(r[0]));
        }
    }
}

pub proof fn lemma_escape_bounds(r: Seq<char>, c: char, acc: Seq<char>)
    ensures
        match escape_scan(r, c, acc) {
            Ok((w, k)) => 0 <= k <= r.len() && w.len() <= acc.len() + k + 2,
            Err((k, _)) => 0 <= k <= r.len(),
        },
{
    lemma_bounded_run_bounds(r, Class::Hex, 2);
    lemma_bounded_run_bounds(r, Class::Hex, 4);
    lemma_bounded_run_bounds(r, Class::Hex, 8);
    lemma_bounded_run_bounds(r, Class::Octal, 2);
}

pub proof fn lemma_ansi_loop_bounds(r: Seq<char>, acc: Seq<char>)
    ensures
        match ansi_loop(r, acc) {
            Ok((w, k)) => 0 < k <= r.len() && w.len() <= acc.len() + k,
            Err((k, _)) => 0 <= k <= r.len(),
        },
    decreases r.len(),
{
    if r.len() > 0 && r[0] != '\'' {
        if r[0] == '\\' {
            if r.len() >= 2 {
                lemma_escape_bounds(r.skip(2), r[1], acc);
                match escape_scan(r.skip(2), r[1], acc) {
                    Err(_) => {},
                    Ok((next, k)) => {
                        lemma_ansi_loop_bounds(r.skip(2 + k), next);
                    },
                }
            }
        } else {
            lemma_ansi_loop_bounds(r.skip(1), acc.push(r[0]));
        }
    }
}

pub proof fn lemma_quoted_bounds(r: Seq<char>)
    ensures
        match quoted_scan(r) {
            Ok(Some((w, k))) => 0 < k <= r.len() && w.len() <= k,
            Ok(None) => true,
            Err((k, _)) => 0 <= k <= r.len(),
        },
{
    reveal(quoted_scan);
    if has_prefix(r, seq!['$', '\'']) {
        lemma_ansi_loop_bounds(r.skip(2), seq![]);
    } else if has_prefix(r, seq!['\'']) {
        lemma_run_len_bounds(r.skip(1), Class::NotQuote);
    } else if has_prefix(r, seq!['"']) {
        lemma_double_loop_bounds(r.skip(1), seq![]);
    } else if has_prefix(r, seq!['$', '"']) {
        let r1 = r.skip(1);
        assert(r1.take(1) =~= seq!['"']) by {
            assert(r.take(2)[1] == '"');
        }
        lemma_double_loop_bounds(r1.skip(1), seq![]);
    }
}

pub proof fn lemma_segment_bounds(r: Seq<char>, stops: Seq<char>)
    ensures
        match segment_scan(r, stops) {
            Ok(Some((w, k))) => 0 < k <= r.len() && w.len() <= k,
            Ok(None) => true,
            Err((k, _)) => 0 <= k <= r.len(),
        },
{
    reveal(segment_scan);
    lemma_quoted_bounds(r);
    lemma_bare_loop_bounds(r, stops, seq![]);
}

pub proof fn lemma_word_rest_bounds(r: Seq<char>, stops: Seq<char>, acc: Seq<char>)
    ensures
        0 <= word_rest(r, stops, acc).1 <= r.len(),
        word_rest(r, stops, acc).0.len() <= acc.len() + word_rest(r, stops, acc).1,
    decreases r.len(),
{
    lemma_segment_bounds(r, stops);
    match segment_scan(r, stops) {
        Ok(Some((t, k))) => {
            lemma_word_rest_bounds(r.skip(k), stops, acc + t);
        },
        _ => {},
    }
}

pub proof fn lemma_word_bounds(r: Seq<char>, stops: Seq<char>)
    ensures
        match word_scan(r, stops) {
            Ok((w, k)) => 0 < k <= r.len() && w.len() <= k,
            Err((k, _)) => 0 <= k <= r.len(),
        },
{
    reveal(word_scan);
    lemma_quoted_bounds(r);
    lemma_bare_loop_bounds(r, stops, seq![]);
    let first = match quoted_scan(r) {
        Err(e) => Err(e),
        Ok(Some(x)) => Ok(x),
        Ok(None) => bare_scan(r, stops),
    };
    match first {
        Ok((t, k)) => {
            lemma_word_rest_bounds(r.skip(k), stops, t);
        },
        Err(_) => {},
    }
}

} // verus!
