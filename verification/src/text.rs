//! Characters, the bytes they take, and the few std string operations the
//! rest of the crate builds on.

use vstd::prelude::*;

verus! {

/// How many bytes UTF-8 spends on one character.
pub open spec fn char_width(c: char) -> int {
    if (c as u32) < 0x80 {
        1
    } else if (c as u32) < 0x800 {
        2
    } else if (c as u32) < 0x10000 {
        3
    } else {
        4
    }
}

/// The byte offset of the `i`-th character of `s`.
pub open spec fn byte_off(s: Seq<char>, i: int) -> int
    decreases i,
{
    if i <= 0 || s.len() == 0 {
        0
    } else if i > s.len() {
        byte_off(s, s.len() as int)
    } else {
        byte_off(s, i - 1) + char_width(s[i - 1])
    }
}

/// The length of `s` in bytes.
pub open spec fn byte_len(s: Seq<char>) -> int {
    byte_off(s, s.len() as int)
}

/// A text whose byte offsets, with some room to spare, are machine integers.
pub open spec fn fits(s: Seq<char>) -> bool {
    byte_len(s) + 64 <= usize::MAX
}

/// A text short enough that it fits even at four bytes a character: what a
/// text must be for every word read out of it to fit as well.
pub open spec fn fits_chars(s: Seq<char>) -> bool {
    4 * s.len() + 64 <= usize::MAX
}

/// No character takes more than four bytes.
pub proof fn lemma_byte_off_at_most(s: Seq<char>, i: int)
    requires
        0 <= i <= s.len(),
    ensures
        byte_off(s, i) <= 4 * i,
    decreases i,
{
    if i > 0 {
        lemma_byte_off_at_most(s, i - 1);
    }
}

/// A text that fits at four bytes a character fits.
pub proof fn lemma_fits_chars(s: Seq<char>)
    requires
        fits_chars(s),
    ensures
        fits(s),
{
    lemma_byte_off_at_most(s, s.len() as int);
}

/// Byte offsets grow by at least one per character.
pub proof fn lemma_byte_off_mono(s: Seq<char>, i: int, j: int)
    requires
        0 <= i <= j <= s.len(),
    ensures
        byte_off(s, i) + (j - i) <= byte_off(s, j),
        0 <= byte_off(s, i),
    decreases j,
{
    if j > i {
        lemma_byte_off_mono(s, i, j - 1);
    } else {
        lemma_byte_off_nonneg(s, i);
    }
}

pub proof fn lemma_byte_off_nonneg(s: Seq<char>, i: int)
    requires
        0 <= i <= s.len(),
    ensures
        0 <= byte_off(s, i),
    decreases i,
{
    if i > 0 {
        lemma_byte_off_nonneg(s, i - 1);
    }
}

/// A byte offset depends only on the characters before it.
pub proof fn lemma_byte_off_prefix(s: Seq<char>, t: Seq<char>, i: int)
    requires
        0 <= i <= s.len(),
        i <= t.len(),
        s.take(i) == t.take(i),
    ensures
        byte_off(s, i) == byte_off(t, i),
    decreases i,
{
    if i > 0 {
        assert(s.take(i - 1) =~= s.take(i).take(i - 1));
        assert(t.take(i - 1) =~= t.take(i).take(i - 1));
        assert(s[i - 1] == s.take(i)[i - 1]);
        assert(t[i - 1] == t.take(i)[i - 1]);
        lemma_byte_off_prefix(s, t, i - 1);
    }
}

/// Bytes add up over a concatenation.
pub proof fn lemma_byte_len_concat(a: Seq<char>, b: Seq<char>)
    ensures
        byte_len(a + b) == byte_len(a) + byte_len(b),
    decreases b.len(),
{
    if b.len() == 0 {
        assert(a + b =~= a);
    } else {
        let ab = a + b;
        let b1 = b.drop_last();
        lemma_byte_len_concat(a, b1);
        assert(ab.take(ab.len() - 1) =~= (a + b1).take(ab.len() - 1));
        lemma_byte_off_prefix(ab, a + b1, ab.len() - 1);
        assert((a + b1).take((a + b1).len() as int) =~= a + b1);
        assert(b.take(b.len() - 1) =~= b1.take(b1.len() as int));
        lemma_byte_off_prefix(b, b1, b.len() - 1);
    }
}

/// A piece of a text that fits fits too.
pub proof fn lemma_fits_subrange(s: Seq<char>, a: int, b: int)
    requires
        fits(s),
        0 <= a <= b <= s.len(),
    ensures
        fits(s.subrange(a, b)),
{
    let x = s.take(a);
    let y = s.subrange(a, b);
    let z = s.skip(b);
    assert(s =~= x + y + z);
    lemma_byte_len_concat(x + y, z);
    lemma_byte_len_concat(x, y);
    lemma_byte_off_mono(x, 0, x.len() as int);
    lemma_byte_off_mono(z, 0, z.len() as int);
}

/// The character index whose byte offset is the widest one not above `b`,
/// searching from `i` on.
pub open spec fn floor_char_from(s: Seq<char>, b: int, i: int) -> int
    decreases s.len() - i,
{
    if i < s.len() && byte_off(s, i + 1) <= b {
        floor_char_from(s, b, i + 1)
    } else {
        i
    }
}

/// The first character index from `i` on whose byte offset is at least `b`.
pub open spec fn ceil_char_from(s: Seq<char>, b: int, i: int) -> int
    decreases s.len() - i,
{
    if i < s.len() && byte_off(s, i) < b {
        ceil_char_from(s, b, i + 1)
    } else {
        i
    }
}

pub open spec fn min_int(a: int, b: int) -> int {
    if a <= b {
        a
    } else {
        b
    }
}

/// The text around byte offset `at`: twenty bytes each side, clipped to the
/// text and widened outwards to character boundaries.
pub open spec fn around(s: Seq<char>, at: int) -> Seq<char> {
    let lo = min_int(if at >= 20 { at - 20 } else { 0 }, byte_len(s));
    let hi = min_int(at + 20, byte_len(s));
    s.subrange(floor_char_from(s, lo, 0), ceil_char_from(s, hi, 0))
}

pub proof fn lemma_floor_bounds(s: Seq<char>, b: int, i: int)
    requires
        0 <= i <= s.len(),
    ensures
        i <= floor_char_from(s, b, i) <= s.len(),
    decreases s.len() - i,
{
    if i < s.len() && byte_off(s, i + 1) <= b {
        lemma_floor_bounds(s, b, i + 1);
    }
}

pub proof fn lemma_ceil_bounds(s: Seq<char>, b: int, i: int)
    requires
        0 <= i <= s.len(),
    ensures
        i <= ceil_char_from(s, b, i) <= s.len(),
    decreases s.len() - i,
{
    if i < s.len() && byte_off(s, i) < b {
        lemma_ceil_bounds(s, b, i + 1);
    }
}

/// When `lo <= hi`, the widened low end never passes the widened high end.
pub proof fn lemma_floor_le_ceil(s: Seq<char>, lo: int, hi: int, i: int)
    requires
        0 <= i <= s.len(),
        lo <= hi,
        byte_off(s, i) <= lo,
    ensures
        floor_char_from(s, lo, i) <= ceil_char_from(s, hi, i),
    decreases s.len() - i,
{
    if i < s.len() && byte_off(s, i + 1) <= lo {
        assert(byte_off(s, i + 1) == byte_off(s, i) + char_width(s[i]));
        lemma_floor_le_ceil(s, lo, hi, i + 1);
        assert(byte_off(s, i) < hi);
    } else {
        lemma_ceil_bounds(s, hi, i);
    }
}

pub fn char_width_of(c: char) -> (w: usize)
    ensures
        w == char_width(c),
{
    let v = c as u32;
    if v < 0x80 {
        1
    } else if v < 0x800 {
        2
    } else if v < 0x10000 {
        3
    } else {
        4
    }
}

/// The byte offset of the `pos`-th character.
pub fn byte_offset(chars: &Vec<char>, pos: usize) -> (b: usize)
    requires
        pos <= chars.len(),
        fits(chars@),
    ensures
        b == byte_off(chars@, pos as int),
{
    let mut i: usize = 0;
    let mut b: usize = 0;
    while i < pos
        invariant
            i <= pos <= chars.len(),
            fits(chars@),
            b == byte_off(chars@, i as int),
        decreases pos - i,
    {
        proof {
            lemma_byte_off_mono(chars@, i + 1, chars.len() as int);
            lemma_byte_off_mono(chars@, 0, i + 1);
        }
        b = b + char_width_of(chars[i]);
        i = i + 1;
    }
    b
}

/// The byte length of the whole text.
pub fn byte_length(chars: &Vec<char>) -> (b: usize)
    requires
        fits(chars@),
    ensures
        b == byte_len(chars@),
{
    byte_offset(chars, chars.len())
}

/// The characters `from..to` as a new string.
pub fn string_of(chars: &Vec<char>, from: usize, to: usize) -> (s: String)
    requires
        from <= to <= chars.len(),
    ensures
        s@ == chars@.subrange(from as int, to as int),
{
    let mut s = String::new();
    let mut i = from;
    while i < to
        invariant
            from <= i <= to <= chars.len(),
            s@ == chars@.subrange(from as int, i as int),
        decreases to - i,
    {
        push_char(&mut s, chars[i]);
        i = i + 1;
        assert(s@ =~= chars@.subrange(from as int, i as int));
    }
    s
}

/// The characters of a sequence as a string.
pub fn string_from(chars: &Vec<char>) -> (s: String)
    ensures
        s@ == chars@,
{
    let s = string_of(chars, 0, chars.len());
    assert(chars@.subrange(0, chars@.len() as int) =~= chars@);
    s
}

/// The text around byte offset `at`, widened to character boundaries.
pub fn snippet(chars: &Vec<char>, at: usize) -> (s: String)
    requires
        fits(chars@),
        at + 20 <= usize::MAX,
    ensures
        s@ == around(chars@, at as int),
{
    let total = byte_length(chars);
    let lo0 = if at >= 20 {
        at - 20
    } else {
        0
    };
    let lo = if lo0 <= total {
        lo0
    } else {
        total
    };
    let hi = if at + 20 <= total {
        at + 20
    } else {
        total
    };
    // Widen the low end down.
    let mut i: usize = 0;
    let mut b: usize = 0;
    loop
        invariant
            i <= chars.len(),
            fits(chars@),
            b == byte_off(chars@, i as int),
            floor_char_from(chars@, lo as int, i as int) == floor_char_from(chars@, lo as int, 0),
        ensures
            i <= chars.len(),
            floor_char_from(chars@, lo as int, i as int) == i,
            floor_char_from(chars@, lo as int, i as int) == floor_char_from(chars@, lo as int, 0),
        decreases chars.len() - i,
    {
        if i >= chars.len() {
            break;
        }
        proof {
            lemma_byte_off_mono(chars@, i + 1, chars.len() as int);
            lemma_byte_off_mono(chars@, 0, i + 1);
        }
        let next = b + char_width_of(chars[i]);
        if next > lo {
            break;
        }
        b = next;
        i = i + 1;
    }
    proof {
        if i < chars.len() {
            lemma_byte_off_mono(chars@, i + 1, chars.len() as int);
        }
    }
    let start = i;
    // Widen the high end up.
    let mut j: usize = 0;
    let mut c: usize = 0;
    while j < chars.len() && c < hi
        invariant
            j <= chars.len(),
            fits(chars@),
            c == byte_off(chars@, j as int),
            ceil_char_from(chars@, hi as int, j as int) == ceil_char_from(chars@, hi as int, 0),
        decreases chars.len() - j,
    {
        proof {
            lemma_byte_off_mono(chars@, j + 1, chars.len() as int);
            lemma_byte_off_mono(chars@, 0, j + 1);
        }
        c = c + char_width_of(chars[j]);
        j = j + 1;
    }
    proof {
        lemma_floor_le_ceil(chars@, lo as int, hi as int, 0);
        lemma_ceil_bounds(chars@, hi as int, 0);
    }
    string_of(chars, start, j)
}

/// The characters of a string, in order.
pub fn chars_of(s: &str) -> (v: Vec<char>)
    ensures
        v@ == s@,
{
    let mut v: Vec<char> = Vec::new();
    for c in it: s.chars()
        invariant
            v@ == it.seq().take(it.index() as int),
            it.seq() == s@,
    {
        v.push(c);
    }
    v
}

/// Appends one character: `String::push`.
#[verifier::external_body]
pub(crate) fn push_char(s: &mut String, c: char)
    ensures
        final(s)@ == old(s)@.push(c),
{
    s.push(c)
}

/// Whether a number is a Unicode scalar value, which is what a `char` holds.
pub open spec fn is_scalar_value(v: int) -> bool {
    (0 <= v && v <= 0xD7FF) || (0xE000 <= v && v <= 0x10FFFF)
}

/// `char::from_u32`: the character with that scalar value, or `None` for a
/// number that is none (a surrogate, or above `0x10FFFF`).
#[verifier::external_body]
pub(crate) fn char_from_u32(v: u32) -> (r: Option<char>)
    ensures
        is_scalar_value(v as int) ==> r == Some(v as char),
        !is_scalar_value(v as int) ==> r is None,
{
    char::from_u32(v)
}

/// What std's `Debug` writes for a string: the text in double quotes, with
/// escapes. Its exact escaping is std's own and is not written out here.
pub uninterp spec fn debug_str(text: Seq<char>) -> Seq<char>;

/// `format!("{text:?}")`: the text as std's `Debug` writes it, which depends
/// on the text alone. The contract names that result and says nothing more
/// of it.
#[verifier::external_body]
pub(crate) fn debug_quoted(text: &str) -> (r: String)
    ensures
        r@ == debug_str(text@),
{
    format!("{text:?}")
}

// ---- the byte model is UTF-8's ---------------------------------------------------

/// A character takes as many bytes as its UTF-8 encoding.
pub proof fn lemma_char_width_utf8(c: char)
    ensures
        char_width(c) == vstd::utf8::encode_scalar(c as u32).len(),
{
    vstd::utf8::char_is_scalar(c);
}

/// The UTF-8 encoding of two texts one after the other is their encodings
/// one after the other.
pub proof fn lemma_utf8_concat(a: Seq<char>, b: Seq<char>)
    ensures
        vstd::utf8::encode_utf8(a + b) == vstd::utf8::encode_utf8(a) + vstd::utf8::encode_utf8(b),
    decreases a.len(),
{
    if a.len() == 0 {
        assert(a + b =~= b);
        assert(Seq::<u8>::empty() + vstd::utf8::encode_utf8(b) =~= vstd::utf8::encode_utf8(b));
    } else {
        assert((a + b)[0] == a[0]);
        assert((a + b).drop_first() =~= a.drop_first() + b);
        lemma_utf8_concat(a.drop_first(), b);
        let x = vstd::utf8::encode_scalar(a[0] as u32);
        assert(x + (vstd::utf8::encode_utf8(a.drop_first()) + vstd::utf8::encode_utf8(b)) =~= (x
            + vstd::utf8::encode_utf8(a.drop_first())) + vstd::utf8::encode_utf8(b));
    }
}

/// A text's length in bytes is the length of its UTF-8 encoding, which is
/// what `str::len` gives.
pub proof fn lemma_byte_len_utf8(s: Seq<char>)
    ensures
        byte_len(s) == vstd::utf8::encode_utf8(s).len(),
    decreases s.len(),
{
    if s.len() > 0 {
        let head = seq![s[0]];
        let t = s.drop_first();
        lemma_byte_len_utf8(t);
        lemma_char_width_utf8(s[0]);
        assert(s =~= head + t);
        lemma_byte_len_concat(head, t);
        assert(byte_off(head, 0) == 0);
        assert(byte_len(head) == char_width(s[0]));
    }
}

/// Where character `i` starts, in bytes, is where its encoding starts in the
/// text's: a character boundary.
pub proof fn lemma_byte_off_boundary(s: Seq<char>, i: int)
    requires
        0 <= i <= s.len(),
    ensures
        vstd::utf8::is_char_boundary(vstd::utf8::encode_utf8(s), byte_off(s, i)),
    decreases i,
{
    vstd::utf8::encode_utf8_valid_utf8(s);
    if i > 0 {
        let t = s.drop_first();
        let head = seq![s[0]];
        let bytes = vstd::utf8::encode_utf8(s);
        vstd::utf8::encode_utf8_first_scalar(s);
        assert(vstd::utf8::pop_first_scalar(bytes) =~= vstd::utf8::encode_utf8(t));
        lemma_char_width_utf8(s[0]);
        assert(s.take(i) =~= head + t.take(i - 1));
        assert(s.take(i).take(i) =~= s.take(i));
        lemma_byte_off_prefix(s, s.take(i), i);
        lemma_byte_len_concat(head, t.take(i - 1));
        assert(byte_off(head, 0) == 0);
        assert(byte_len(head) == char_width(s[0]));
        assert(t.take(i - 1).take(i - 1) =~= t.take(i - 1));
        lemma_byte_off_prefix(t, t.take(i - 1), i - 1);
        assert(byte_off(s, i) == char_width(s[0]) + byte_off(t, i - 1));
        lemma_byte_off_nonneg(t, i - 1);
        lemma_byte_off_boundary(t, i - 1);
        vstd::utf8::encode_utf8_valid_utf8(t);
    }
}

} // verus!
