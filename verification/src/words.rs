//! Words: what stands between white space.
use vstd::prelude::*;
use vstd::utf8::*;

use crate::text;
use crate::cell::urls::{lemma_solid_end, solid_end};
use crate::cell::wrap::{first_solid, lemma_next_boundary, next_boundary, solid_from};
use crate::clipboard::html::word_end;
use crate::text::{
    boundary, char_at, lemma_after_ascii, lemma_ascii_is_boundary, lemma_boundary_ends,
    lemma_slice_valid, lemma_utf8_concat, lemma_utf8_valid, utf8, white,
};

verus! {

/// The words of a text from `p` on.
pub open spec fn words_from_place(b: Seq<u8>, p: int) -> Seq<Seq<u8>>
    decreases b.len() - p,
{
    let w = first_solid(b, p, b.len() as int);
    let e = solid_end(b, w);
    if !(p <= w < e <= b.len()) {
        Seq::empty()
    } else {
        seq![b.subrange(w, e)] + words_from_place(b, e)
    }
}

/// The words of a text.
pub open spec fn words_of(b: Seq<u8>) -> Seq<Seq<u8>> {
    words_from_place(b, 0)
}

/// Words put together, one space between them.
pub open spec fn joined(ws: Seq<Seq<u8>>) -> Seq<u8>
    decreases ws.len(),
{
    if ws.len() == 0 {
        Seq::empty()
    } else if ws.len() == 1 {
        ws[0]
    } else {
        ws[0] + seq![32u8] + joined(ws.subrange(1, ws.len() as int))
    }
}

/// A word: a text that is not empty, without white space.
pub open spec fn is_word(w: Seq<u8>) -> bool {
    valid_utf8(w) && w.len() > 0 && solid_end(w, 0) == w.len()
}

/// Only words.
pub open spec fn all_words(ws: Seq<Seq<u8>>) -> bool {
    forall|i: int| 0 <= i < ws.len() ==> is_word(#[trigger] ws[i])
}

/// A part of a text: its characters are those of the text.
pub proof fn lemma_part(b: Seq<u8>, p: int, w: Seq<u8>, i: int)
    requires
        valid_utf8(b),
        valid_utf8(w),
        0 <= p,
        p + w.len() <= b.len(),
        b.subrange(p, (p + w.len()) as int) == w,
        boundary(b, p),
        boundary(b, (p + w.len()) as int),
        boundary(w, i),
        i < w.len(),
    ensures
        char_at(b, p + i) == char_at(w, i),
        next_boundary(b, p + i) == p + next_boundary(w, i),
        boundary(b, p + i),
{
    let end = (p + w.len()) as int;
    let n = b.len() as int;
    assert forall|k: int| 0 <= k < w.len() implies w[k] == b[p + k] by {
        assert(b.subrange(p, end)[k] == b[p + k]);
    }
    lemma_boundary_ends(b);
    lemma_boundary_ends(w);
    lemma_slice_valid(b, p + i, n);
    lemma_slice_valid(b, end, n);
    lemma_slice_valid(w, i, w.len() as int);
    let x = w.subrange(i, w.len() as int);
    let y = b.subrange(end, n);
    assert(b.subrange(p + i, n) =~= x + y);
    let cx = decode_utf8(x);
    let cy = decode_utf8(y);
    decode_utf8_encode_utf8(x);
    decode_utf8_encode_utf8(y);
    lemma_utf8_concat(cx, cy);
    encode_utf8_decode_utf8(cx + cy);
    assert(decode_utf8(x + y) == cx + cy);
    if cx.len() == 0 {
        assert(utf8(cx).len() == 0);
    }
    lemma_next_in_part(b, p, w, i);
}

proof fn lemma_next_in_part(b: Seq<u8>, p: int, w: Seq<u8>, i: int)
    requires
        0 <= p,
        0 <= i < w.len(),
        p + w.len() <= b.len(),
        forall|k: int| 0 <= k < w.len() ==> w[k] == #[trigger] b[p + k],
        boundary(b, (p + w.len()) as int),
    ensures
        next_boundary(b, p + i) == p + next_boundary(w, i),
    decreases w.len() - i,
{
    if i + 1 < w.len() {
        assert(w[i + 1] == b[p + (i + 1)]);
        if !boundary(w, i + 1) {
            lemma_next_in_part(b, p, w, i + 1);
        }
    }
}

proof fn lemma_word_in_text(b: Seq<u8>, p: int, w: Seq<u8>, i: int)
    requires
        valid_utf8(b),
        valid_utf8(w),
        0 <= p,
        p + w.len() <= b.len(),
        b.subrange(p, (p + w.len()) as int) == w,
        boundary(b, p),
        boundary(b, (p + w.len()) as int),
        boundary(w, i),
        solid_end(w, i) == w.len(),
        p + w.len() < b.len() ==> b[(p + w.len()) as int] == 32,
    ensures
        solid_end(b, p + i) == p + w.len(),
    decreases w.len() - i,
{
    let end = (p + w.len()) as int;
    if i == w.len() {
        if end < b.len() {
            lemma_space(b, end);
        }
    } else {
        lemma_part(b, p, w, i);
        lemma_next_boundary(w, i);
        lemma_next_boundary(b, p + i);
        lemma_word_in_text(b, p, w, next_boundary(w, i));
    }
}

proof fn lemma_word_alone(b: Seq<u8>, p: int, w: Seq<u8>, i: int)
    requires
        valid_utf8(b),
        valid_utf8(w),
        0 <= p,
        p + w.len() <= b.len(),
        b.subrange(p, (p + w.len()) as int) == w,
        boundary(b, p),
        boundary(b, (p + w.len()) as int),
        boundary(w, i),
        solid_end(b, p + i) == p + w.len(),
    ensures
        solid_end(w, i) == w.len(),
    decreases w.len() - i,
{
    if i < w.len() {
        lemma_part(b, p, w, i);
        lemma_next_boundary(w, i);
        lemma_next_boundary(b, p + i);
        lemma_word_alone(b, p, w, next_boundary(w, i));
    }
}

proof fn lemma_words_from_place(b: Seq<u8>, p: int)
    requires
        valid_utf8(b),
        boundary(b, p),
    ensures
        all_words(words_from_place(b, p)),
    decreases b.len() - p,
{
    let n = b.len() as int;
    let w = first_solid(b, p, n);
    let e = solid_end(b, w);
    if p <= w < e <= n {
        lemma_boundary_ends(b);
        lemma_first_solid(b, p);
        lemma_solid_end(b, w);
        lemma_slice_valid(b, w, e);
        let word = b.subrange(w, e);
        lemma_boundary_ends(word);
        lemma_word_alone(b, w, word, 0);
        lemma_words_from_place(b, e);
    }
}

proof fn lemma_first_solid(b: Seq<u8>, p: int)
    requires
        boundary(b, p),
    ensures
        boundary(b, first_solid(b, p, b.len() as int)),
    decreases b.len() - p,
{
    lemma_next_boundary(b, p);
    if p < b.len() && white(char_at(b, p)) {
        lemma_first_solid(b, next_boundary(b, p));
    }
}

/// The words of a text are words.
pub proof fn lemma_words_of(b: Seq<u8>)
    requires
        valid_utf8(b),
    ensures
        all_words(words_of(b)),
{
    lemma_boundary_ends(b);
    lemma_words_from_place(b, 0);
}

/// A space is white.
proof fn lemma_space(b: Seq<u8>, p: int)
    requires
        valid_utf8(b),
        0 <= p < b.len(),
        b[p] == 32,
    ensures
        white(char_at(b, p)),
        boundary(b, p),
        boundary(b, p + 1),
        next_boundary(b, p) == p + 1,
{
    lemma_ascii_char(b, p);
}

/// An ASCII byte is the character of that number.
pub proof fn lemma_ascii_char(b: Seq<u8>, p: int)
    requires
        valid_utf8(b),
        0 <= p < b.len(),
        b[p] < 128,
    ensures
        char_at(b, p) == b[p] as char,
        boundary(b, p),
        boundary(b, p + 1),
        next_boundary(b, p) == p + 1,
{
    let n = b.len() as int;
    lemma_boundary_ends(b);
    lemma_ascii_is_boundary(b, p);
    lemma_after_ascii(b, p);
    lemma_slice_valid(b, p, n);
    lemma_slice_valid(b, p + 1, n);
    let y = b.subrange(p + 1, n);
    let c = seq![b[p] as char];
    is_ascii_chars_encode_utf8(c);
    assert(utf8(c) =~= seq![b[p]]);
    decode_utf8_encode_utf8(y);
    lemma_utf8_concat(c, decode_utf8(y));
    assert(b.subrange(p, n) =~= utf8(c) + y);
    encode_utf8_decode_utf8(c + decode_utf8(y));
}

proof fn lemma_words_laid_out(b: Seq<u8>, p: int, ws: Seq<Seq<u8>>)
    requires
        valid_utf8(b),
        boundary(b, p),
        all_words(ws),
        b.subrange(p, b.len() as int) == joined(ws),
    ensures
        words_from_place(b, p) == ws,
    decreases ws.len(),
{
    let n = b.len() as int;
    if ws.len() == 0 {
        assert(b.subrange(p, n).len() == 0);
        assert(words_from_place(b, p) =~= Seq::empty());
    } else {
        let w = ws[0];
        let rest = ws.subrange(1, ws.len() as int);
        let e = (p + w.len()) as int;
        assert(is_word(w));
        assert(joined(ws).len() >= w.len());
        assert(b.subrange(p, n).len() == n - p);
        assert(b.subrange(p, n).subrange(0, w.len() as int) =~= b.subrange(p, e));
        assert(joined(ws).subrange(0, w.len() as int) =~= w);
        lemma_boundary_ends(b);
        lemma_boundary_ends(w);
        if ws.len() > 1 {
            assert(b[e] == b.subrange(p, n)[w.len() as int]);
            lemma_space(b, e);
        } else {
            assert(e == n);
        }
        lemma_word_in_text(b, p, w, 0);
        lemma_part(b, p, w, 0);
        assert(!white(char_at(w, 0)));
        assert(first_solid(b, p, n) == p);
        assert(words_from_place(b, p) == seq![w] + words_from_place(b, e));
        if ws.len() > 1 {
            assert(b.subrange(e + 1, n) =~= b.subrange(p, n).subrange(e + 1 - p, n - p));
            assert(joined(ws).subrange(e + 1 - p, joined(ws).len() as int) =~= joined(rest));
            assert forall|i: int| 0 <= i < rest.len() implies is_word(#[trigger] rest[i]) by {
                assert(rest[i] == ws[i + 1]);
            }
            lemma_words_laid_out(b, e + 1, rest);
            assert(first_solid(b, e, n) == first_solid(b, e + 1, n));
            assert(words_from_place(b, e) == words_from_place(b, e + 1));
        } else {
            assert(words_from_place(b, e) =~= Seq::empty());
        }
        assert(ws =~= seq![w] + rest);
    }
}

proof fn lemma_joined_valid(ws: Seq<Seq<u8>>)
    requires
        all_words(ws),
    ensures
        valid_utf8(joined(ws)),
    decreases ws.len(),
{
    if ws.len() > 1 {
        let rest = ws.subrange(1, ws.len() as int);
        assert forall|i: int| 0 <= i < rest.len() implies is_word(#[trigger] rest[i]) by {
            assert(rest[i] == ws[i + 1]);
        }
        lemma_joined_valid(rest);
        let c = seq![' '];
        is_ascii_chars_encode_utf8(c);
        assert(utf8(c) =~= seq![32u8]);
        encode_utf8_valid_utf8(c);
        valid_utf8_concat(ws[0], seq![32u8]);
        valid_utf8_concat(ws[0] + seq![32u8], joined(rest));
        assert(is_word(ws[0]));
    } else if ws.len() == 1 {
        assert(is_word(ws[0]));
    } else {
        encode_utf8_valid_utf8(Seq::empty());
        assert(utf8(Seq::empty()) =~= Seq::empty());
    }
}

/// A word put behind others.
pub proof fn lemma_joined_push(ws: Seq<Seq<u8>>, w: Seq<u8>)
    ensures
        joined(ws.push(w)) == if ws.len() == 0 {
            w
        } else {
            joined(ws) + seq![32u8] + w
        },
    decreases ws.len(),
{
    if ws.len() > 0 {
        let rest = ws.subrange(1, ws.len() as int);
        lemma_joined_push(rest, w);
        assert(ws.push(w).subrange(1, (ws.len() + 1) as int) =~= rest.push(w));
        if ws.len() == 1 {
            assert(rest.len() == 0);
        }
        assert(joined(ws.push(w)) =~= joined(ws) + seq![32u8] + w);
    }
}

/// Words that are put together, one space between them, are split again.
pub proof fn joined_words_are_split_again(ws: Seq<Seq<u8>>)
    requires
        all_words(ws),
    ensures
        words_of(joined(ws)) == ws,
        valid_utf8(joined(ws)),
{
    let b = joined(ws);
    lemma_joined_valid(ws);
    lemma_boundary_ends(b);
    assert(b.subrange(0, b.len() as int) =~= b);
    lemma_words_laid_out(b, 0, ws);
}

/// A word with an ASCII character in front of it that is no white space is a word.
pub proof fn lemma_word_behind(x: u8, w: Seq<u8>)
    requires
        x < 128,
        !white(x as char),
        is_word(w),
    ensures
        is_word(seq![x] + w),
{
    let b = seq![x] + w;
    let c = seq![x as char];
    is_ascii_chars_encode_utf8(c);
    assert(utf8(c) =~= seq![x]);
    encode_utf8_valid_utf8(c);
    valid_utf8_concat(seq![x], w);
    lemma_ascii_char(b, 0);
    lemma_boundary_ends(b);
    lemma_boundary_ends(w);
    assert(b.subrange(1, (1 + w.len()) as int) =~= w);
    lemma_word_in_text(b, 1, w, 0);
}

/// ASCII characters that are no white space are a word.
pub proof fn lemma_ascii_word(w: Seq<u8>)
    requires
        w.len() > 0,
        forall|i: int| 0 <= i < w.len() ==> (#[trigger] w[i]) < 128 && !white(w[i] as char),
    ensures
        is_word(w),
    decreases w.len(),
{
    let rest = w.subrange(1, w.len() as int);
    assert(w =~= seq![w[0]] + rest);
    if w.len() > 1 {
        assert forall|i: int| 0 <= i < rest.len() implies (#[trigger] rest[i]) < 128 && !white(
            rest[i] as char,
        ) by {
            assert(rest[i] == w[i + 1]);
        }
        lemma_ascii_word(rest);
        assert(w[0] < 128);
        lemma_word_behind(w[0], rest);
    } else {
        let c = seq![w[0] as char];
        assert(w[0] < 128);
        is_ascii_chars_encode_utf8(c);
        assert(utf8(c) =~= w);
        encode_utf8_valid_utf8(c);
        lemma_ascii_char(w, 0);
        reveal_with_fuel(solid_end, 2);
    }
}

/// The words of a text, as offsets.
pub fn split_words(s: &str) -> (v: Vec<(usize, usize)>)
    ensures
        word_views(utf8(s@), v@) == words_of(utf8(s@)),
        forall|i: int|
            0 <= i < v@.len() ==> (#[trigger] v@[i]).0 < v@[i].1 && v@[i].1 <= utf8(s@).len()
                && boundary(utf8(s@), v@[i].0 as int) && boundary(utf8(s@), v@[i].1 as int),
{
    let ghost b = utf8(s@);
    let n: usize = text::len(s);
    let mut out: Vec<(usize, usize)> = Vec::new();
    let mut p: usize = 0;
    let mut more: bool = true;
    proof {
        lemma_utf8_valid(s@);
        lemma_boundary_ends(b);
        assert(word_views(b, out@) + words_from_place(b, 0) =~= words_of(b));
    }
    while more
        invariant
            b == utf8(s@),
            n == b.len(),
            p <= n,
            boundary(b, p as int),
            boundary(b, n as int),
            more ==> words_of(b) == word_views(b, out@) + words_from_place(b, p as int),
            !more ==> words_of(b) == word_views(b, out@),
            forall|i: int|
                0 <= i < out@.len() ==> (#[trigger] out@[i]).0 < out@[i].1 && out@[i].1 <= n
                    && boundary(b, out@[i].0 as int) && boundary(b, out@[i].1 as int),
        decreases
            n - p,
            if more {
                1int
            } else {
                0int
            },
    {
        let w: usize = solid_from(s, p, n);
        let e: usize = word_end(s, w);
        if w < e {
            let ghost prev = out@;
            out.push((w, e));
            assert(word_views(b, out@) =~= word_views(b, prev).push(
                b.subrange(w as int, e as int),
            ));
            assert(words_of(b) =~= word_views(b, out@) + words_from_place(b, e as int));
            p = e;
        } else {
            assert(words_from_place(b, p as int) =~= Seq::empty());
            assert(word_views(b, out@) + words_from_place(b, p as int) =~= word_views(b, out@));
            more = false;
        }
    }
    out
}

/// The parts of a text that offsets give.
pub open spec fn word_views(b: Seq<u8>, v: Seq<(usize, usize)>) -> Seq<Seq<u8>> {
    Seq::new(v.len(), |i: int| b.subrange(v[i].0 as int, v[i].1 as int))
}

} // verus!
