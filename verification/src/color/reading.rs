//! What is written of a palette is read again.
use vstd::prelude::*;
use vstd::utf8::*;

use crate::cell::wrap::{lemma_trimmed_end, Span};
use crate::clipboard::plain::text_lines;
use crate::color::{
    color_read, digit_value, hex_colors_are_read_back, hex_of, hex_value, line_read, palette_set,
    palette_upto, row, trimmed, two_digits, Color, Palette,
};
use crate::text::{
    first_byte, lemma_utf8_concat, lemma_utf8_injective, lemma_utf8_valid, utf8, white,
};
use crate::words::lemma_ascii_char;

verus! {

// ---------------------------------------------------------------------------
// Lines
// ---------------------------------------------------------------------------

/// What a line makes of a palette.
pub open spec fn taken(q: Palette, read: Option<(Seq<u8>, Color)>) -> Palette {
    match read {
        Some((key, c)) => palette_set(q, key, c),
        None => q,
    }
}

/// What lines make of a palette, one after the other.
pub open spec fn through(b: Seq<u8>, lines: Seq<Span>, q: Palette) -> Palette
    decreases lines.len(),
{
    if lines.len() == 0 {
        q
    } else {
        through(b, lines.subrange(1, lines.len() as int), taken(q, line_read(b, lines[0])))
    }
}

/// What the lines from `at` on make of a palette.
#[verifier::opaque]
pub open spec fn read_on(b: Seq<u8>, at: int, q: Palette) -> Palette {
    through(b, text_lines(b, at), q)
}

pub proof fn lemma_through(b: Seq<u8>, lines: Seq<Span>, n: int)
    requires
        0 <= n <= lines.len(),
    ensures
        through(b, lines.subrange(n, lines.len() as int), palette_upto(b, lines, n))
            == palette_upto(b, lines, lines.len() as int),
    decreases lines.len() - n,
{
    let rest = lines.subrange(n, lines.len() as int);
    if n < lines.len() {
        lemma_through(b, lines, n + 1);
        assert(rest.subrange(1, rest.len() as int) =~= lines.subrange(n + 1, lines.len() as int));
        assert(rest[0] == lines[n]);
    }
}

/// `b` has the bytes `part` from `at` on.
#[verifier::opaque]
pub open spec fn stands_at(b: Seq<u8>, at: int, part: Seq<u8>) -> bool {
    0 <= at && at + part.len() <= b.len() && b.subrange(at, at + part.len()) == part
}

pub proof fn lemma_at(b: Seq<u8>, at: int, part: Seq<u8>)
    requires
        stands_at(b, at, part),
    ensures
        0 <= at,
        at + part.len() <= b.len(),
        forall|i: int| 0 <= i < part.len() ==> b[at + i] == #[trigger] part[i],
{
    reveal(stands_at);
    assert forall|i: int| 0 <= i < part.len() implies b[at + i] == #[trigger] part[i] by {
        assert(b.subrange(at, at + part.len())[i] == b[at + i]);
    }
}

pub proof fn lemma_parts(b: Seq<u8>, at: int, x: Seq<u8>, y: Seq<u8>)
    requires
        stands_at(b, at, x + y),
    ensures
        stands_at(b, at, x),
        stands_at(b, at + x.len(), y),
{
    reveal(stands_at);
    let all = b.subrange(at, at + (x + y).len());
    assert(b.subrange(at, at + x.len()) =~= x) by {
        assert(all.subrange(0, x.len() as int) =~= x);
        assert(all.subrange(0, x.len() as int) =~= b.subrange(at, at + x.len()));
    }
    assert(b.subrange(at + x.len(), at + x.len() + y.len()) =~= y) by {
        assert(all.subrange(x.len() as int, all.len() as int) =~= y);
        assert(all.subrange(x.len() as int, all.len() as int) =~= b.subrange(
            at + x.len(),
            at + x.len() + y.len(),
        ));
    }
}

pub proof fn lemma_first_is(b: Seq<u8>, x: u8, from: int, k: int)
    requires
        0 <= from <= k < b.len(),
        b[k] == x,
        forall|i: int| from <= i < k ==> #[trigger] b[i] != x,
    ensures
        first_byte(b, x, from) == k,
    decreases k - from,
{
    if from < k {
        lemma_first_is(b, x, from + 1, k);
    }
}

pub proof fn lemma_line(b: Seq<u8>, at: int, nl: int, q: Palette)
    requires
        0 <= at <= nl < b.len(),
        b[nl] == 10,
        forall|i: int| at <= i < nl ==> #[trigger] b[i] != 10,
        at < nl ==> b[nl - 1] != 13,
    ensures
        read_on(b, at, q) == read_on(b, nl + 1, taken(q, line_read(b, Span { start: at, end: nl }))),
{
    reveal(read_on);
    lemma_first_is(b, 10, at, nl);
    let lines = text_lines(b, at);
    assert(lines == seq![Span { start: at, end: nl }] + text_lines(b, nl + 1));
    assert(lines.subrange(1, lines.len() as int) =~= text_lines(b, nl + 1));
}

/// White space around a part that neither starts nor ends with any.
pub proof fn lemma_trim(b: Seq<u8>, lo: int, hi: int)
    requires
        valid_utf8(b),
        0 <= lo < hi <= b.len(),
        b[lo] < 128,
        !white(b[lo] as char),
        b[hi - 1] < 128,
        !white(b[hi - 1] as char),
    ensures
        trimmed(b, lo, hi) == (Span { start: lo, end: hi }),
{
    lemma_ascii_char(b, lo);
    lemma_ascii_char(b, hi - 1);
    lemma_trimmed_end(b, hi);
}

// ---------------------------------------------------------------------------
// Rows
// ---------------------------------------------------------------------------

/// The first `n` characters of a key are small letters, or `_`.
pub open spec fn letters(s: Seq<char>, n: int) -> bool
    decreases n,
{
    n <= 0 || (letters(s, n - 1) && ('a' <= s[n - 1] <= 'z' || s[n - 1] == '_'))
}

/// A number by which keys are told apart.
pub open spec fn code(s: Seq<char>, n: int) -> int
    decreases n,
{
    if n <= 0 {
        0
    } else {
        code(s, n - 1) * 3 + s[n - 1] as int
    }
}

/// A key of letters, and the number it has.
#[verifier::opaque]
pub open spec fn keyed(s: Seq<char>, n: int) -> bool {
    s.len() > 0 && letters(s, s.len() as int) && code(s, s.len() as int) == n
}

pub proof fn lemma_letters(s: Seq<char>, n: int, i: int)
    requires
        letters(s, n),
        0 <= i < n,
    ensures
        'a' <= s[i] <= 'z' || s[i] == '_',
    decreases n,
{
    if i < n - 1 {
        lemma_letters(s, n - 1, i);
    }
}

pub proof fn lemma_key(s: Seq<char>, n: int)
    requires
        keyed(s, n),
    ensures
        utf8(s).len() == s.len(),
        s.len() > 0,
        forall|i: int|
            0 <= i < s.len() ==> (97 <= #[trigger] utf8(s)[i] <= 122 || utf8(s)[i] == 95),
{
    reveal(keyed);
    assert forall|i: int| 0 <= i < s.len() implies 'a' <= #[trigger] s[i] <= 'z' || s[i] == '_' by {
        lemma_letters(s, s.len() as int, i);
    }
    is_ascii_chars_encode_utf8(s);
}

pub proof fn lemma_apart(s: Seq<char>, n: int)
    requires
        keyed(s, n),
    ensures
        forall|t: Seq<char>, m: int|
            #![trigger keyed(t, m)]
            keyed(t, m) && m != n ==> utf8(t) != utf8(s),
{
    reveal(keyed);
    assert forall|t: Seq<char>, m: int|
        #![trigger keyed(t, m)]
        keyed(t, m) && m != n implies utf8(t) != utf8(s) by {
        if utf8(t) == utf8(s) {
            lemma_utf8_injective(t, s);
        }
    }
}

pub proof fn lemma_hex_bytes(c: Color)
    ensures
        hex_of(c).len() == 7 || hex_of(c).len() == 9,
        hex_of(c)[0] == 35,
        forall|i: int|
            0 < i < hex_of(c).len() ==> 48 <= (#[trigger] hex_of(c)[i]) <= 57 || 97 <= hex_of(
                c,
            )[i] <= 102,
{
    let b = hex_of(c);
    assert(b[1] == two_digits(c.r)[0] && b[2] == two_digits(c.r)[1]);
    assert(b[3] == two_digits(c.g)[0] && b[4] == two_digits(c.g)[1]);
    assert(b[5] == two_digits(c.b)[0] && b[6] == two_digits(c.b)[1]);
    if c.a != 255 {
        assert(b[7] == two_digits(c.a)[0] && b[8] == two_digits(c.a)[1]);
    }
    assert forall|i: int| 0 < i < b.len() implies 48 <= (#[trigger] b[i]) <= 57 || 97 <= b[i] <= 102 by {
        if i == 1 || i == 2 || i == 3 || i == 4 || i == 5 || i == 6 || i == 7 || i == 8 {
        }
    }
}

/// A color that is written anywhere in a text is read there.
pub proof fn lemma_color(b: Seq<u8>, at: int, c: Color)
    requires
        valid_utf8(b),
        stands_at(b, at, hex_of(c)),
    ensures
        color_read(b, at, at + hex_of(c).len()) == Some(c),
{
    let h = hex_of(c);
    let n = h.len() as int;
    lemma_at(b, at, h);
    lemma_hex_bytes(c);
    assert(b[at + 0] == h[0]);
    assert(b[at + (n - 1)] == h[n - 1]);
    lemma_trim(b, at, at + n);
    hex_colors_are_read_back(c);
    assert(hex_value(h, 0, n) == Some(c));
    assert forall|k: int| at < k < at + n implies digit_value(#[trigger] b[k]) is Some by {
        assert(b[at + (k - at)] == h[k - at]);
    }
    assert(b[at + 1] == h[1] && b[at + 2] == h[2] && b[at + 3] == h[3]);
    assert(b[at + 4] == h[4] && b[at + 5] == h[5] && b[at + 6] == h[6]);
    if n == 9 {
        assert(b[at + 7] == h[7] && b[at + 8] == h[8]);
    }
}

/// A color that is written by itself is read again.
pub proof fn colors_are_read_back(c: Color)
    ensures
        color_read(hex_of(c), 0, hex_of(c).len() as int) == Some(c),
{
    let h = hex_of(c);
    lemma_hex_valid(c);
    assert(stands_at(h, 0, h)) by {
        reveal(stands_at);
        assert(h.subrange(0, h.len() as int) =~= h);
    }
    lemma_color(h, 0, c);
}

pub proof fn lemma_ascii_valid(b: Seq<u8>)
    requires
        forall|i: int| 0 <= i < b.len() ==> #[trigger] b[i] < 128,
    ensures
        valid_utf8(b),
{
    let s = Seq::new(b.len(), |i: int| b[i] as char);
    assert forall|i: int| 0 <= i < s.len() implies '\0' <= #[trigger] s[i] <= '\u{7f}' by {
        assert(b[i] < 128);
    }
    is_ascii_chars_encode_utf8(s);
    assert(utf8(s) =~= b);
    lemma_utf8_valid(s);
}

pub proof fn lemma_hex_valid(c: Color)
    ensures
        valid_utf8(hex_of(c)),
{
    lemma_hex_bytes(c);
    lemma_ascii_valid(hex_of(c));
}

pub proof fn lemma_row_valid(key: Seq<char>, c: Color)
    ensures
        valid_utf8(row(key, c)),
{
    lemma_utf8_valid(key);
    lemma_utf8_valid(": \""@);
    lemma_utf8_valid("\"\n"@);
    lemma_hex_valid(c);
    valid_utf8_concat(utf8(key), utf8(": \""@));
    valid_utf8_concat(utf8(key) + utf8(": \""@), hex_of(c));
    valid_utf8_concat(utf8(key) + utf8(": \""@) + hex_of(c), utf8("\"\n"@));
}

pub proof fn lemma_row(b: Seq<u8>, at: int, key: Seq<char>, n: int, c: Color, q: Palette)
    requires
        valid_utf8(b),
        keyed(key, n),
        stands_at(b, at, row(key, c)),
    ensures
        read_on(b, at, q) == read_on(b, at + row(key, c).len(), palette_set(q, utf8(key), c)),
{
    let k = utf8(key);
    let h = hex_of(c);
    lemma_key(key, n);
    lemma_hex_bytes(c);
    reveal_strlit(": \"");
    reveal_strlit("\"\n");
    is_ascii_chars_encode_utf8(": \""@);
    is_ascii_chars_encode_utf8("\"\n"@);
    let mid = utf8(": \""@);
    let end = utf8("\"\n"@);
    assert(mid =~= seq![58u8, 32u8, 34u8]);
    assert(end =~= seq![34u8, 10u8]);
    lemma_parts(b, at, k + mid + h, end);
    lemma_parts(b, at, k + mid, h);
    lemma_parts(b, at, k, mid);
    lemma_at(b, at, k);
    lemma_at(b, at + k.len(), mid);
    lemma_at(b, at + k.len() + 3, h);
    let colon = at + k.len();
    let nl = colon + 3 + h.len() + 1;
    lemma_at(b, nl - 1, end);
    assert(b[colon + 0] == mid[0] && b[colon + 1] == mid[1] && b[colon + 2] == mid[2]);
    assert(b[nl - 1 + 0] == end[0] && b[nl - 1 + 1] == end[1]);
    assert(nl + 1 == at + row(key, c).len());
    assert forall|i: int| at <= i < nl implies #[trigger] b[i] != 10 by {
        if i < colon {
            assert(b[at + (i - at)] == k[i - at]);
        } else if colon + 3 <= i < nl - 1 {
            assert(b[colon + 3 + (i - colon - 3)] == h[i - colon - 3]);
        }
    }
    assert forall|i: int| at <= i < colon implies #[trigger] b[i] != 58 by {
        assert(b[at + (i - at)] == k[i - at]);
    }
    lemma_line(b, at, nl, q);
    assert(b[at + 0] == k[0]);
    assert(b[at + (k.len() - 1)] == k[k.len() - 1]);
    lemma_trim(b, at, nl);
    lemma_first_is(b, 58, at, colon);
    lemma_trim(b, at, colon);
    lemma_trim(b, colon + 2, nl);
    lemma_ascii_char(b, colon + 1);
    assert(trimmed(b, colon + 1, nl) == (Span { start: colon + 2, end: nl }));
    lemma_color(b, colon + 3, c);
    assert(b.subrange(at, colon) =~= k) by {
        assert forall|i: int| 0 <= i < k.len() implies b.subrange(at, colon)[i] == #[trigger] k[i] by {
            assert(b[at + i] == k[i]);
        }
    }
    assert(line_read(b, Span { start: at, end: nl }) == Some((k, c)));
}

// ---------------------------------------------------------------------------
// Comments
// ---------------------------------------------------------------------------

/// None of the first `n` characters ends a line.
pub open spec fn unbroken(s: Seq<char>, n: int) -> bool
    decreases n,
{
    n <= 0 || (unbroken(s, n - 1) && s[n - 1] != '\n' && s[n - 1] != '\r')
}

/// A line with a comment.
#[verifier::opaque]
pub open spec fn comment(s: Seq<char>) -> bool {
    s.len() >= 2 && s[0] == '#' && s.last() == '\n' && unbroken(s, s.len() - 1)
}

pub proof fn lemma_unbroken(s: Seq<char>, n: int, i: int)
    requires
        unbroken(s, n),
        0 <= i < n,
    ensures
        s[i] != '\n' && s[i] != '\r',
    decreases n,
{
    if i < n - 1 {
        lemma_unbroken(s, n - 1, i);
    }
}

pub proof fn lemma_breaks(s: Seq<char>, i: int)
    requires
        forall|j: int| 0 <= j < s.len() ==> #[trigger] s[j] != '\n' && s[j] != '\r',
        0 <= i < utf8(s).len(),
    ensures
        utf8(s)[i] != 10 && utf8(s)[i] != 13,
    decreases s.len(),
{
    let b = utf8(s);
    let rest = s.drop_first();
    encode_utf8_first_scalar(s);
    let w = length_of_first_scalar(b);
    let first = encode_scalar(s[0] as u32);
    assert(b == first + utf8(rest));
    assert(w == first.len());
    if i < w {
        if w == 1 {
            let x = b[0];
            assert(x & 0x7F == x) by (bit_vector)
                requires
                    x <= 0x7f,
            ;
            assert(decode_first_scalar(b) == x as u32);
            assert(s[0] as u32 == x as u32);
            char_is_scalar(s[0]);
            char_u32_cast(s[0], x as u32);
            assert(s[0] == (x as u32) as char);
        } else {
            assert(i == 0 || i == 1 || i == 2 || i == 3);
            assert(b[i] >= 128);
        }
    } else {
        assert forall|j: int| 0 <= j < rest.len() implies #[trigger] rest[j] != '\n' && rest[j]
            != '\r' by {
            assert(rest[j] == s[j + 1]);
        }
        lemma_breaks(rest, i - w);
        assert(b[i] == utf8(rest)[i - w]);
    }
}

pub proof fn lemma_comment(b: Seq<u8>, at: int, s: Seq<char>, q: Palette)
    requires
        valid_utf8(b),
        comment(s),
        stands_at(b, at, utf8(s)),
    ensures
        read_on(b, at, q) == read_on(b, at + utf8(s).len(), q),
{
    reveal(comment);
    let inner = s.drop_last();
    let t = utf8(s);
    let u = utf8(inner);
    assert(s =~= inner + seq!['\n']);
    lemma_utf8_concat(inner, seq!['\n']);
    is_ascii_chars_encode_utf8(seq!['\n']);
    assert(utf8(seq!['\n']) =~= seq![10u8]);
    assert(t == u + seq![10u8]);
    assert forall|j: int| 0 <= j < inner.len() implies #[trigger] inner[j] != '\n' && inner[j]
        != '\r' by {
        lemma_unbroken(s, s.len() - 1, j);
    }
    assert(inner =~= seq!['#'] + inner.drop_first());
    lemma_utf8_concat(seq!['#'], inner.drop_first());
    is_ascii_chars_encode_utf8(seq!['#']);
    assert(utf8(seq!['#']) =~= seq![35u8]);
    assert(u[0] == 35);
    lemma_at(b, at, t);
    let nl = at + u.len();
    assert(b[at + u.len()] == t[u.len() as int]);
    assert forall|i: int| at <= i < nl implies #[trigger] b[i] != 10 by {
        assert(b[at + (i - at)] == t[i - at]);
        lemma_breaks(inner, i - at);
    }
    assert(b[at + (u.len() - 1)] == t[u.len() - 1]);
    lemma_breaks(inner, u.len() - 1);
    lemma_line(b, at, nl, q);
    assert(b[at + 0] == t[0]);
    lemma_ascii_char(b, at);
    assert(line_read(b, Span { start: at, end: nl }) is None);
}

pub proof fn lemma_blank(b: Seq<u8>, at: int, q: Palette)
    requires
        valid_utf8(b),
        0 <= at < b.len(),
        b[at] == 10,
    ensures
        read_on(b, at, q) == read_on(b, at + 1, q),
{
    lemma_line(b, at, at, q);
    lemma_trimmed_end(b, at);
    assert(line_read(b, Span { start: at, end: at }) is None);
}

} // verus!
