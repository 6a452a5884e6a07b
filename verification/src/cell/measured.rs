//! How wide the lines of a wrapped paragraph are.
use vstd::prelude::*;
use vstd::utf8::*;

use crate::cell::rows::lemma_first_solid_place;
use crate::cell::wrap::{
    broken_word, first_solid, fitting_end, is_comment, lemma_chained_lines, lemma_next_boundary,
    lemma_no_boundary_between, lemma_words_from, next_boundary, paragraph_lines, words_from,
    words_ok, wrapped_paragraph, wrapped_paragraph_covers, wrapped_text, wrapped_words, Span,
    StyledLine,
};
use crate::text::{
    boundary, char_at, first_byte, lemma_after_ascii, lemma_ascii_is_boundary, lemma_boundary_ends,
    lemma_first_byte, white,
};

verus! {

/// There is a character at `q`, and it is no white space.
pub open spec fn solid_at(b: Seq<u8>, q: int) -> bool {
    0 <= q < b.len() && boundary(b, q) && !white(char_at(b, q))
}

/// Every part of a text between `start` and `end` that fits fits too.
#[verifier::opaque]
pub open spec fn parts_fit(start: int, end: int, wide: spec_fn(int, int) -> bool) -> bool {
    forall|a: int, p: int, q: int, e: int|
        start <= a <= p <= q <= e <= end && !(#[trigger] wide(a, e)) ==> !(#[trigger] wide(p, q))
}

proof fn lemma_part_fits(
    start: int,
    end: int,
    wide: spec_fn(int, int) -> bool,
    a: int,
    e: int,
    p: int,
    q: int,
)
    requires
        parts_fit(start, end, wide),
        start <= a <= p <= q <= e <= end,
        !wide(a, e),
    ensures
        !wide(p, q),
{
    reveal(parts_fit);
}

/// The line from `s` to `e` fits: up to the end of every character on it that is no white
/// space, but for its first.
pub open spec fn fits_up_to(
    b: Seq<u8>,
    s: int,
    e: int,
    wide: spec_fn(int, int) -> bool,
) -> bool {
    forall|q: int| s < q < e && #[trigger] solid_at(b, q) ==> !wide(s, next_boundary(b, q))
}

/// The line from `s` could not go on at `c`: up to `e` there is no white space behind `c`, and
/// up to there the line would be too wide.
pub open spec fn too_wide_with(
    b: Seq<u8>,
    s: int,
    c: int,
    e: int,
    wide: spec_fn(int, int) -> bool,
) -> bool {
    &&& c < e
    &&& wide(s, e)
    &&& forall|q: int| c <= q < e && #[trigger] boundary(b, q) ==> solid_at(b, q)
}

/// The line had to end where it does.
pub open spec fn had_to_end(
    b: Seq<u8>,
    line: Span,
    end: int,
    wide: spec_fn(int, int) -> bool,
) -> bool {
    exists|e: int| e <= end && #[trigger] too_wide_with(b, line.start, line.end, e, wide)
}

/// `q` lies in one of the words.
pub open spec fn in_words(words: Seq<Span>, q: int) -> bool {
    exists|k: int| 0 <= k < words.len() && (#[trigger] words[k]).start <= q < words[k].end
}

/// The words between `lo` and `end` are where there is no white space.
pub open spec fn words_are_solid(b: Seq<u8>, words: Seq<Span>, lo: int, end: int) -> bool {
    forall|q: int|
        lo <= q < end && #[trigger] boundary(b, q) ==> (in_words(words, q) <==> solid_at(b, q))
}

proof fn lemma_words_solid(b: Seq<u8>, p: int, end: int, open: Option<int>)
    requires
        boundary(b, p),
        boundary(b, end),
        0 <= p <= end,
        open matches Some(s) ==> 0 <= s < p && boundary(b, s) && forall|q: int|
            s <= q < p && #[trigger] boundary(b, q) ==> solid_at(b, q),
    ensures
        ({
            let ws = words_from(b, p, end, open);
            let lo = match open {
                Some(s) => s,
                None => p,
            };
            &&& words_are_solid(b, ws, lo, end)
            &&& open is Some || p < end && solid_at(b, p) ==> ws.len() > 0 && ws[0].start == lo
        }),
    decreases end - p,
{
    let ws = words_from(b, p, end, open);
    let lo = match open {
        Some(s) => s,
        None => p,
    };
    lemma_words_from(b, p, end, open);
    lemma_next_boundary(b, p);
    lemma_no_boundary_between(b, p);
    let n = next_boundary(b, p);
    if p >= end {
        if open is Some {
            assert(ws[0] == (Span { start: lo, end }));
        }
    } else {
        if n > end {
            assert(!boundary(b, end));
        }
        if white(char_at(b, p)) {
            lemma_words_solid(b, n, end, None);
            lemma_words_from(b, n, end, None);
            let rest = words_from(b, n, end, None);
            let base: int = if open is Some {
                1
            } else {
                0
            };
            assert forall|k: int| 0 <= k < rest.len() implies ws[k + base] == #[trigger] rest[k] by {}
            assert forall|q: int| lo <= q < end && #[trigger] boundary(b, q) implies (in_words(
                ws,
                q,
            ) <==> solid_at(b, q)) by {
                if in_words(ws, q) {
                    let k = choose|k: int|
                        0 <= k < ws.len() && (#[trigger] ws[k]).start <= q < ws[k].end;
                    if k >= base {
                        assert(ws[k] == rest[k - base]);
                        assert(in_words(rest, q));
                    }
                }
                if q < p {
                    assert(ws[0] == (Span { start: lo, end: p }));
                    assert(in_words(ws, q));
                } else if q > p {
                    assert(q >= n);
                    if in_words(rest, q) {
                        let k = choose|k: int|
                            0 <= k < rest.len() && (#[trigger] rest[k]).start <= q < rest[k].end;
                        assert(ws[k + base] == rest[k]);
                        assert(in_words(ws, q));
                    }
                }
            }
        } else {
            assert(solid_at(b, p));
            assert forall|q: int| lo <= q < n && #[trigger] boundary(b, q) implies solid_at(b, q) by {
                if q > p {
                    assert(!boundary(b, q));
                }
            }
            lemma_words_solid(b, n, end, Some(lo));
        }
    }
}

proof fn lemma_fitting(
    b: Seq<u8>,
    cursor: int,
    end: int,
    i: int,
    fit: int,
    wide: spec_fn(int, int) -> bool,
)
    requires
        wide(cursor, end),
        0 <= cursor < end,
        boundary(b, cursor),
        boundary(b, end),
        boundary(b, i),
        boundary(b, fit),
        cursor <= fit < end,
        i <= end,
        i == cursor && fit == cursor || i == next_boundary(b, fit),
        fit > cursor ==> !wide(cursor, fit),
    ensures
        ({
            let r = fitting_end(b, cursor, end, i, fit, wide);
            &&& cursor <= r < end
            &&& boundary(b, r)
            &&& next_boundary(b, r) <= end
            &&& r > cursor ==> !wide(cursor, r)
            &&& wide(cursor, next_boundary(b, r))
        }),
    decreases end - i,
{
    let n = next_boundary(b, i);
    lemma_next_boundary(b, i);
    lemma_no_boundary_between(b, i);
    lemma_next_boundary(b, fit);
    if i < end {
        if end < n {
            assert(!boundary(b, end));
        }
        if !(i > cursor && wide(cursor, i)) {
            lemma_fitting(
                b,
                cursor,
                end,
                n,
                if i > cursor {
                    i
                } else {
                    fit
                },
                wide,
            );
        }
    }
}

/// Lines that fit, and that had to end.
#[verifier::opaque]
pub open spec fn lines_fit(
    b: Seq<u8>,
    lines: Seq<Span>,
    end: int,
    wide: spec_fn(int, int) -> bool,
) -> bool {
    forall|j: int|
        0 <= j < lines.len() ==> fits_up_to(b, (#[trigger] lines[j]).start, lines[j].end, wide)
            && had_to_end(b, lines[j], end, wide)
}

proof fn lemma_lines_fit_added(
    b: Seq<u8>,
    x: Seq<Span>,
    y: Seq<Span>,
    end: int,
    wide: spec_fn(int, int) -> bool,
)
    requires
        lines_fit(b, x, end, wide),
        lines_fit(b, y, end, wide),
    ensures
        lines_fit(b, x + y, end, wide),
{
    reveal(lines_fit);
    let all = x + y;
    assert forall|j: int| 0 <= j < all.len() implies fits_up_to(
        b,
        (#[trigger] all[j]).start,
        all[j].end,
        wide,
    ) && had_to_end(b, all[j], end, wide) by {
        if j < x.len() {
            assert(all[j] == x[j]);
        } else {
            assert(all[j] == y[j - x.len()]);
        }
    }
}

proof fn lemma_line_fits(b: Seq<u8>, line: Span, end: int, wide: spec_fn(int, int) -> bool)
    requires
        fits_up_to(b, line.start, line.end, wide),
        had_to_end(b, line, end, wide),
    ensures
        lines_fit(b, seq![line], end, wide),
{
    reveal(lines_fit);
}

proof fn lemma_no_lines_fit(b: Seq<u8>, end: int, wide: spec_fn(int, int) -> bool)
    ensures
        lines_fit(b, Seq::empty(), end, wide),
{
    reveal(lines_fit);
}

/// No character behind `s` ends behind `e`, where `e` is a boundary.
proof fn lemma_ends_by(b: Seq<u8>, q: int, e: int)
    requires
        boundary(b, q),
        boundary(b, e),
        q < e,
    ensures
        q < next_boundary(b, q) <= e,
        boundary(b, next_boundary(b, q)),
{
    lemma_next_boundary(b, q);
    lemma_no_boundary_between(b, q);
    if next_boundary(b, q) > e {
        assert(!boundary(b, e));
    }
}

proof fn lemma_broken_fits(
    b: Seq<u8>,
    cursor: int,
    end: int,
    lo: int,
    hi: int,
    wide: spec_fn(int, int) -> bool,
)
    requires
        parts_fit(lo, hi, wide),
        lo <= cursor < end <= hi,
        0 <= cursor,
        boundary(b, cursor),
        boundary(b, end),
        forall|q: int| cursor <= q < end && #[trigger] boundary(b, q) ==> solid_at(b, q),
    ensures
        lines_fit(b, broken_word(b, cursor, end, wide).0, hi, wide),
        cursor <= broken_word(b, cursor, end, wide).1 < end,
        boundary(b, broken_word(b, cursor, end, wide).1),
        ({
            let last = broken_word(b, cursor, end, wide).1;
            !wide(last, end) || next_boundary(b, last) >= end
        }),
    decreases end - cursor,
{
    lemma_no_lines_fit(b, hi, wide);
    let fit = fitting_end(b, cursor, end, cursor, cursor, wide);
    lemma_next_boundary(b, cursor);
    lemma_ends_by(b, cursor, end);
    let next = if fit <= cursor {
        next_boundary(b, cursor)
    } else {
        fit
    };
    if wide(cursor, end) {
        lemma_fitting(b, cursor, end, cursor, cursor, wide);
        if next < end {
            let line = Span { start: cursor, end: next };
            lemma_broken_fits(b, next, end, lo, hi, wide);
            lemma_ends_by(b, next, end);
            assert forall|q: int| cursor < q < next && #[trigger] solid_at(b, q) implies !wide(
                cursor,
                next_boundary(b, q),
            ) by {
                lemma_ends_by(b, q, next);
                if fit <= cursor {
                    lemma_no_boundary_between(b, cursor);
                    assert(!boundary(b, q));
                } else {
                    lemma_part_fits(lo, hi, wide, cursor, fit, cursor, next_boundary(b, q));
                }
            }
            let e = next_boundary(b, next);
            assert(wide(cursor, e)) by {
                if fit <= cursor {
                    assert(wide(cursor, next_boundary(b, cursor)));
                    if !wide(cursor, e) {
                        lemma_part_fits(lo, hi, wide, cursor, e, cursor, next);
                    }
                }
            }
            assert(too_wide_with(b, line.start, line.end, e, wide));
            lemma_line_fits(b, line, hi, wide);
            lemma_lines_fit_added(b, seq![line], broken_word(b, next, end, wide).0, hi, wide);
        }
    }
}

proof fn lemma_word_solid(b: Seq<u8>, words: Seq<Span>, k: int, lo: int, end: int)
    requires
        words_ok(b, words, lo, end),
        words_are_solid(b, words, lo, end),
        0 <= k < words.len(),
    ensures
        forall|q: int|
            words[k].start <= q < words[k].end && #[trigger] boundary(b, q) ==> solid_at(b, q),
{
    assert forall|q: int| words[k].start <= q < words[k].end && #[trigger] boundary(
        b,
        q,
    ) implies solid_at(b, q) by {
        assert(in_words(words, q));
    }
}

proof fn lemma_cut_fits(
    b: Seq<u8>,
    words: Seq<Span>,
    k: int,
    line_start: int,
    lo: int,
    end: int,
    wide: spec_fn(int, int) -> bool,
)
    requires
        parts_fit(lo, end, wide),
        words_ok(b, words, lo, end),
        words_are_solid(b, words, lo, end),
        0 < k < words.len(),
        0 <= lo <= line_start < words[k - 1].end,
        boundary(b, line_start),
        wide(line_start, words[k].end),
        !wide(line_start, words[k - 1].end) || next_boundary(b, line_start) >= words[k - 1].end,
    ensures
        lines_fit(b, seq![Span { start: line_start, end: words[k].start }], end, wide),
{
    let w = words[k];
    let line = Span { start: line_start, end: w.start };
    lemma_word_solid(b, words, k, lo, end);
    lemma_fits_to_word(b, words, k, line_start, lo, end, w.start, wide);
    assert(too_wide_with(b, line.start, line.end, w.end, wide));
    lemma_line_fits(b, line, end, wide);
}

proof fn lemma_wrapped_fit(
    b: Seq<u8>,
    words: Seq<Span>,
    k: int,
    line_start: int,
    lo: int,
    end: int,
    wide: spec_fn(int, int) -> bool,
)
    requires
        parts_fit(lo, end, wide),
        words_ok(b, words, lo, end),
        words_are_solid(b, words, lo, end),
        boundary(b, end),
        0 <= k <= words.len(),
        0 <= lo <= line_start <= end,
        boundary(b, line_start),
        words.len() > 0 && words[0].start == lo,
        k == 0 ==> line_start == lo,
        k < words.len() ==> line_start <= words[k].start,
        k > 0 ==> line_start < words[k - 1].end && (!wide(line_start, words[k - 1].end)
            || next_boundary(b, line_start) >= words[k - 1].end),
    ensures
        ({
            let r = wrapped_words(b, words, k, line_start, wide);
            &&& lines_fit(b, r.0, end, wide)
            &&& line_start <= r.1 < words.last().end
            &&& boundary(b, r.1)
            &&& fits_up_to(b, r.1, end, wide)
        }),
    decreases words.len() - k,
{
    if k < words.len() {
        let w = words[k];
        let wraps = k > 0 && wide(line_start, w.end);
        let line = Span { start: line_start, end: w.start };
        let cut: Seq<Span> = if wraps {
            seq![line]
        } else {
            Seq::empty()
        };
        let at = if wraps {
            w.start
        } else {
            line_start
        };
        lemma_no_lines_fit(b, end, wide);
        if wraps {
            lemma_cut_fits(b, words, k, line_start, lo, end, wide);
        }
        let inner: (Seq<Span>, int) = if at == w.start && wide(w.start, w.end) {
            broken_word(b, w.start, w.end, wide)
        } else {
            (Seq::empty(), at)
        };
        if at == w.start && wide(w.start, w.end) {
            lemma_word_solid(b, words, k, lo, end);
            lemma_broken_fits(b, w.start, w.end, lo, end, wide);
        }
        if k + 1 < words.len() {
            assert(words[k].end <= words[k + 1].start);
        }
        lemma_wrapped_fit(b, words, k + 1, inner.1, lo, end, wide);
        lemma_lines_fit_added(b, cut, inner.0, end, wide);
        lemma_lines_fit_added(
            b,
            cut + inner.0,
            wrapped_words(b, words, k + 1, inner.1, wide).0,
            end,
            wide,
        );
    } else {
        lemma_no_lines_fit(b, end, wide);
        assert(words[k - 1] == words.last());
        lemma_fits_to_word(b, words, k, line_start, lo, end, end, wide);
    }
}

proof fn lemma_fits_to_word(
    b: Seq<u8>,
    words: Seq<Span>,
    k: int,
    line_start: int,
    lo: int,
    end: int,
    e: int,
    wide: spec_fn(int, int) -> bool,
)
    requires
        parts_fit(lo, end, wide),
        words_ok(b, words, lo, end),
        words_are_solid(b, words, lo, end),
        0 < k <= words.len(),
        0 <= lo <= line_start < words[k - 1].end,
        boundary(b, line_start),
        e <= end,
        k < words.len() ==> e <= words[k].start,
        !wide(line_start, words[k - 1].end) || next_boundary(b, line_start) >= words[k - 1].end,
    ensures
        fits_up_to(b, line_start, e, wide),
{
    let v = words[k - 1];
    assert forall|q: int| line_start < q < e && #[trigger] solid_at(b, q) implies !wide(
        line_start,
        next_boundary(b, q),
    ) by {
        assert(in_words(words, q));
        let j = choose|j: int| 0 <= j < words.len() && (#[trigger] words[j]).start <= q
            < words[j].end;
        if j >= k {
            if j > k {
                assert(words[k].end <= words[j].start);
                assert(words[k].start < words[k].end);
            }
        }
        if j < k - 1 {
            assert(words[j].end <= words[k - 1].start);
            assert(v.start < v.end);
        }
        assert(q < v.end);
        lemma_ends_by(b, q, v.end);
        lemma_no_boundary_between(b, line_start);
        if next_boundary(b, line_start) >= v.end {
            assert(!boundary(b, q));
        }
        lemma_part_fits(lo, end, wide, line_start, v.end, line_start, next_boundary(b, q));
    }
}

/// Lines fit, and are as long as they can be. Where the paragraph does not start with white
/// space, and every part of a text that fits fits too: up to the end of each character on it
/// that is no white space, no line is too wide, unless it is a single such character; and a
/// line is broken only in front of what would make it too wide, be it a word or the next
/// character of one.
pub proof fn lines_fit_and_are_as_long_as_they_can_be(
    b: Seq<u8>,
    start: int,
    end: int,
    wide: spec_fn(int, int) -> bool,
)
    requires
        boundary(b, start),
        boundary(b, end),
        start < end,
        solid_at(b, start),
        parts_fit(start, end, wide),
    ensures
        ({
            let lines = wrapped_paragraph(b, start, end, wide);
            &&& forall|j: int|
                0 <= j < lines.len() ==> fits_up_to(
                    b,
                    (#[trigger] lines[j]).start,
                    lines[j].end,
                    wide,
                )
            &&& forall|j: int|
                0 <= j < lines.len() - 1 ==> had_to_end(b, #[trigger] lines[j], end, wide)
        }),
{
    let words = words_from(b, start, end, None);
    lemma_words_from(b, start, end, None);
    lemma_words_solid(b, start, end, None);
    lemma_wrapped_fit(b, words, 0, start, start, end, wide);
    reveal(lines_fit);
    let r = wrapped_words(b, words, 0, start, wide);
    let lines = wrapped_paragraph(b, start, end, wide);
    assert(lines == r.0.push(Span { start: r.1, end }));
    assert forall|j: int| 0 <= j < lines.len() implies fits_up_to(
        b,
        (#[trigger] lines[j]).start,
        lines[j].end,
        wide,
    ) by {
        if j < r.0.len() {
            assert(lines[j] == r.0[j]);
        }
    }
    assert forall|j: int| 0 <= j < lines.len() - 1 implies had_to_end(
        b,
        #[trigger] lines[j],
        end,
        wide,
    ) by {
        assert(lines[j] == r.0[j]);
    }
}

// ---------------------------------------------------------------------------
// Paragraphs
// ---------------------------------------------------------------------------

/// There is a paragraph from `ps` to `pe` in the text from `start` on: a line feed, or nothing, in
/// front of it and behind it, and none in it.
pub open spec fn is_paragraph(b: Seq<u8>, start: int, ps: int, pe: int) -> bool {
    &&& 0 <= start <= ps <= pe <= b.len()
    &&& ps == start || b[ps - 1] == 10
    &&& pe == b.len() || b[pe] == 10
    &&& forall|q: int| ps <= q < pe ==> #[trigger] b[q] != 10
}

/// The line lies in the paragraph, with the line feed behind that; it is marked as a comment where
/// the paragraph is one; and where the paragraph does not start with white space, the line fits.
pub open spec fn line_of_paragraph(
    b: Seq<u8>,
    l: StyledLine,
    ps: int,
    pe: int,
    wide: spec_fn(int, int) -> bool,
) -> bool {
    &&& ps <= l.line.start <= l.line.end <= pe + 1
    &&& l.line.end <= b.len()
    &&& l.comment <==> exists|p: int|
        {
            &&& ps <= p < pe
            &&& #[trigger] boundary(b, p)
            &&& b[p] == 35
            &&& !white(char_at(b, p))
            &&& forall|q: int| ps <= q < p && #[trigger] boundary(b, q) ==> white(char_at(b, q))
        }
    &&& ps < pe && solid_at(b, ps) ==> forall|q: int|
        l.line.start < q < l.line.end && q < pe && #[trigger] solid_at(b, q) ==> !wide(
            l.line.start,
            next_boundary(b, q),
        )
}

proof fn lemma_comment(b: Seq<u8>, ps: int, pe: int)
    requires
        boundary(b, ps),
        boundary(b, pe),
        ps <= pe,
    ensures
        is_comment(b, ps, pe) <==> exists|p: int|
            {
                &&& ps <= p < pe
                &&& #[trigger] boundary(b, p)
                &&& b[p] == 35
                &&& !white(char_at(b, p))
                &&& forall|q: int|
                    ps <= q < p && #[trigger] boundary(b, q) ==> white(char_at(b, q))
            },
{
    lemma_first_solid_place(b, ps, pe);
    let at = first_solid(b, ps, pe);
    if exists|p: int|
        {
            &&& ps <= p < pe
            &&& #[trigger] boundary(b, p)
            &&& b[p] == 35
            &&& !white(char_at(b, p))
            &&& forall|q: int| ps <= q < p && #[trigger] boundary(b, q) ==> white(char_at(b, q))
        } {
        let p = choose|p: int|
            {
                &&& ps <= p < pe
                &&& #[trigger] boundary(b, p)
                &&& b[p] == 35
                &&& !white(char_at(b, p))
                &&& forall|q: int|
                    ps <= q < p && #[trigger] boundary(b, q) ==> white(char_at(b, q))
            };
        if at < p {
            assert(boundary(b, at));
        } else if at > p {
            assert(boundary(b, p));
        }
    }
    if is_comment(b, ps, pe) {
        assert(boundary(b, at));
    }
}

/// Every line of a wrapped text lies in one paragraph: a line feed can only be its last byte. All
/// lines of a paragraph are marked as comments where the first character of the paragraph that is no
/// white space is `#`, and none of them otherwise. Lines of a paragraph that does not start with white
/// space fit, where every part of a text that fits fits too.
pub proof fn lines_lie_in_paragraphs(
    b: Seq<u8>,
    start: int,
    wide: spec_fn(int, int) -> bool,
    i: int,
)
    requires
        valid_utf8(b),
        boundary(b, start),
        0 <= i < wrapped_text(b, start, wide).len(),
        parts_fit(0, b.len() as int, wide),
    ensures
        exists|ps: int, pe: int| #[trigger]
            is_paragraph(b, start, ps, pe) && line_of_paragraph(
                b,
                wrapped_text(b, start, wide)[i],
                ps,
                pe,
                wide,
            ),
    decreases b.len() - start,
{
    lemma_boundary_ends(b);
    lemma_first_byte(b, 10, start);
    let nl = first_byte(b, 10, start);
    if nl < b.len() {
        lemma_after_ascii(b, nl);
        lemma_ascii_is_boundary(b, nl);
    }
    let p = wrapped_paragraph(b, start, nl, wide);
    wrapped_paragraph_covers(b, start, nl, wide);
    lemma_chained_lines(b, p, start, nl);
    let close = if nl < b.len() {
        nl + 1
    } else {
        b.len() as int
    };
    let here = paragraph_lines(b, start, nl, close, wide);
    let comment = is_comment(b, start, nl);
    let styled = here.map_values(|l: Span| StyledLine { line: l, comment });
    let all = wrapped_text(b, start, wide);
    lemma_comment(b, start, nl);
    if i < here.len() {
        assert(all[i] == styled[i]);
        let l = styled[i];
        assert(l.line.start == p[i].start);
        assert(is_paragraph(b, start, start, nl));
        if start < nl && solid_at(b, start) {
            assert(parts_fit(start, nl, wide)) by {
                reveal(parts_fit);
            }
            lines_fit_and_are_as_long_as_they_can_be(b, start, nl, wide);
            assert(fits_up_to(b, p[i].start, p[i].end, wide));
            assert forall|q: int|
                l.line.start < q < l.line.end && q < nl && #[trigger] solid_at(
                    b,
                    q,
                ) implies !wide(l.line.start, next_boundary(b, q)) by {
                if i < p.len() - 1 {
                    assert(l.line == p[i]);
                } else {
                    assert(p[i].end == nl);
                }
            }
        }
        assert(line_of_paragraph(b, all[i], start, nl, wide));
    } else {
        let rest = wrapped_text(b, nl + 1, wide);
        assert(all == styled + rest);
        let k = i - here.len();
        assert(all[i] == rest[k]);
        lines_lie_in_paragraphs(b, nl + 1, wide, k);
        let (ps, pe) = choose|ps: int, pe: int| #[trigger]
            is_paragraph(b, nl + 1, ps, pe) && line_of_paragraph(b, rest[k], ps, pe, wide);
        assert(is_paragraph(b, start, ps, pe));
    }
}

} // verus!
