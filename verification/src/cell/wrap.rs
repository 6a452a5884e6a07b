//! Text wrapping and the character, word and line helpers that every body type
//! shares. Nothing here changes a cell.
use std::ops::Range;
use vstd::prelude::*;
use vstd::utf8::*;

use crate::text;
use crate::cell::common::{is_kept_tag_url, is_tag_address, Affinity, Link, LinkSpan};
use crate::text::{
    boundary, char_at, first_byte, lemma_after_ascii, lemma_ascii_is_boundary, lemma_boundary_ends,
    lemma_first_byte, lemma_utf8_valid, utf8, views, white,
};

verus! {

/// A range of bytes, in contracts.
#[verifier::ext_equal]
pub struct Span {
    pub start: int,
    pub end: int,
}

/// The span that a range denotes.
pub open spec fn span(r: Range<usize>) -> Span {
    Span { start: r.start as int, end: r.end as int }
}

/// The spans that a list of ranges denotes.
pub open spec fn spans(v: Seq<Range<usize>>) -> Seq<Span> {
    Seq::new(v.len(), |i: int| span(v[i]))
}

/// A copy of a range.
pub fn copy_range(r: &Range<usize>) -> (c: Range<usize>)
    ensures
        c == *r,
{
    r.start..r.end
}

// ---------------------------------------------------------------------------
// Tags in text
// ---------------------------------------------------------------------------

/// The character in front of `i` is white space.
pub open spec fn white_before(b: Seq<u8>, i: int) -> bool {
    i > 0 && white(char_at(b, prev_boundary(b, i)))
}

/// The character at `i` is white space.
pub open spec fn white_here(b: Seq<u8>, i: int) -> bool {
    i < b.len() && white(char_at(b, i))
}

/// Where the text up to `end` ends once white space behind it is cut off.
pub open spec fn trimmed_end(b: Seq<u8>, end: int) -> int
    decreases end,
{
    let p = prev_boundary(b, end);
    if !white_before(b, end) || p < 0 || p >= end {
        end
    } else {
        trimmed_end(b, p)
    }
}

/// Where the word that ends at `end` starts.
pub open spec fn word_start(b: Seq<u8>, end: int) -> int
    decreases end,
{
    let p = prev_boundary(b, end);
    if end <= 0 || white_before(b, end) || p < 0 || p >= end {
        end
    } else {
        word_start(b, p)
    }
}

/// The run of words starting with `#` that closes the text up to `end`, in
/// order. A bare `#` counts.
pub open spec fn trailing_tags(b: Seq<u8>, end: int) -> Seq<Span>
    decreases end,
{
    let e = trimmed_end(b, end);
    let s = word_start(b, e);
    if 0 <= s < e && e <= end && b[s] == 35 {
        trailing_tags(b, s).push(Span { start: s, end: e })
    } else {
        Seq::empty()
    }
}

pub proof fn lemma_trimmed_end(b: Seq<u8>, end: int)
    requires
        valid_utf8(b),
        0 <= end <= b.len(),
    ensures
        0 <= trimmed_end(b, end) <= end,
        trimmed_end(b, end) < end ==> boundary(b, trimmed_end(b, end)),
    decreases end,
{
    lemma_prev_boundary(b, end);
    if white_before(b, end) {
        lemma_trimmed_end(b, prev_boundary(b, end));
    }
}

proof fn lemma_word_start(b: Seq<u8>, end: int)
    requires
        valid_utf8(b),
        0 <= end <= b.len(),
    ensures
        0 <= word_start(b, end) <= end,
    decreases end,
{
    lemma_prev_boundary(b, end);
    if end > 0 && !white_before(b, end) {
        lemma_word_start(b, prev_boundary(b, end));
    }
}

/// Trailing tags lie in the text, in order, each starting with `#`; they start
/// and end between characters where the text up to `end` does.
pub proof fn lemma_trailing_tags(b: Seq<u8>, end: int)
    requires
        valid_utf8(b),
        0 <= end <= b.len(),
    ensures
        forall|i: int|
            0 <= i < trailing_tags(b, end).len() ==> 0 <= (#[trigger] trailing_tags(
                b,
                end,
            )[i]).start < trailing_tags(b, end)[i].end <= end && b[trailing_tags(b, end)[i].start]
                == 35 && (boundary(b, end) ==> boundary(b, trailing_tags(b, end)[i].end)),
    decreases end,
{
    let e = trimmed_end(b, end);
    lemma_trimmed_end(b, end);
    lemma_word_start(b, e);
    let s = word_start(b, e);
    if 0 <= s < e && b[s] == 35 {
        lemma_ascii_is_boundary(b, s);
        lemma_trailing_tags(b, s);
        let rest = trailing_tags(b, s);
        let all = trailing_tags(b, end);
        assert forall|i: int| 0 <= i < all.len() implies 0 <= (#[trigger] all[i]).start
            < all[i].end <= end && b[all[i].start] == 35 && (boundary(b, end) ==> boundary(
            b,
            all[i].end,
        )) by {
            if i < rest.len() {
                assert(all[i] == rest[i]);
            }
        }
    }
}

/// Whether the character of `text` in front of `i` is white space.
fn is_white_before(text: &str, i: usize) -> (r: bool)
    requires
        i <= utf8(text@).len(),
    ensures
        r == white_before(utf8(text@), i as int),
{
    if i == 0 {
        return false;
    }
    proof {
        lemma_utf8_valid(text@);
        lemma_prev_boundary(utf8(text@), i as int);
    }
    text::is_white(text::get_char(text, prev_char_boundary(text, i)))
}

spec fn reversed_spans(v: Seq<Range<usize>>) -> Seq<Span> {
    Seq::new(v.len(), |i: int| span(v[v.len() - 1 - i]))
}

/// Where the text up to `end` ends once white space behind it is cut off.
pub fn trim_end_at(text: &str, end: usize) -> (r: usize)
    requires
        end <= utf8(text@).len(),
    ensures
        r == trimmed_end(utf8(text@), end as int),
        r <= end,
{
    let ghost b = utf8(text@);
    proof {
        lemma_utf8_valid(text@);
    }
    let mut e: usize = end;
    while is_white_before(text, e)
        invariant
            b == utf8(text@),
            valid_utf8(b),
            e <= end,
            end <= b.len(),
            trimmed_end(b, e as int) == trimmed_end(b, end as int),
        decreases e,
    {
        proof {
            lemma_prev_boundary(b, e as int);
        }
        e = prev_char_boundary(text, e);
    }
    e
}

/// The trailing `#tag` tokens of a heading paragraph that ends at
/// `heading_end`, as ranges of `text`, in source order. Tokens are separated by
/// white space; a bare `#` is a tag being typed and counts.
pub fn parse_heading_tags(text: &str, heading_end: usize) -> (tags: Vec<Range<usize>>)
    requires
        heading_end <= utf8(text@).len(),
    ensures
        spans(tags@) == trailing_tags(utf8(text@), heading_end as int),
{
    let bytes = text.as_bytes();
    let ghost b = utf8(text@);
    proof {
        lemma_utf8_valid(text@);
    }
    let mut found: Vec<Range<usize>> = Vec::new();
    let mut end: usize = heading_end;
    let mut more: bool = true;
    while more
        invariant
            bytes@ == b,
            b == utf8(text@),
            valid_utf8(b),
            end <= bytes.len(),
            heading_end <= b.len(),
            more ==> trailing_tags(b, heading_end as int) == trailing_tags(b, end as int)
                + reversed_spans(found@),
            !more ==> trailing_tags(b, heading_end as int) == reversed_spans(found@),
        decreases
            end,
            if more {
                1int
            } else {
                0int
            },
    {
        let ghost from = end as int;
        end = trim_end_at(text, end);
        let mut start: usize = end;
        while start > 0 && !is_white_before(text, start)
            invariant
                b == utf8(text@),
                valid_utf8(b),
                start <= end,
                end <= b.len(),
                word_start(b, start as int) == word_start(b, end as int),
            decreases start,
        {
            proof {
                lemma_prev_boundary(b, start as int);
            }
            start = prev_char_boundary(text, start);
        }
        if start < end && bytes[start] == 35 {
            let ghost prev = found@;
            found.push(start..end);
            proof {
                let one = Span { start: start as int, end: end as int };
                assert(reversed_spans(found@) =~= seq![one] + reversed_spans(prev));
                assert(trailing_tags(b, from) == trailing_tags(b, start as int).push(one));
                assert(trailing_tags(b, from) + reversed_spans(prev) =~= trailing_tags(
                    b,
                    start as int,
                ) + reversed_spans(found@));
            }
            end = start;
        } else {
            proof {
                assert(trailing_tags(b, from) =~= Seq::<Span>::empty());
                assert(trailing_tags(b, from) + reversed_spans(found@) =~= reversed_spans(found@));
            }
            more = false;
        }
    }
    let mut tags: Vec<Range<usize>> = Vec::new();
    let mut i: usize = found.len();
    while i > 0
        invariant
            i <= found.len(),
            tags@.len() == found@.len() - i,
            forall|k: int| 0 <= k < tags@.len() ==> tags@[k] == found@[found@.len() - 1 - k],
        decreases i,
    {
        i -= 1;
        tags.push(copy_range(&found[i]));
    }
    assert(spans(tags@) =~= reversed_spans(found@));
    tags
}

/// A `#` that starts a tag: one led by white space or by nothing.
pub open spec fn tag_start(b: Seq<u8>, i: int) -> bool {
    b[i] == 35 && (i == 0 || white_before(b, i))
}

/// Where a tag's name that runs on at `i` ends: at white space, at another `#`
/// or at the end of the text.
pub open spec fn tag_end(b: Seq<u8>, i: int) -> int
    decreases b.len() - i,
{
    let n = next_boundary(b, i);
    if i < 0 || i >= b.len() || white_here(b, i) || b[i] == 35 || n <= i || n > b.len() {
        i
    } else {
        tag_end(b, n)
    }
}

/// The tags that start in the first `n` bytes, in order.
pub open spec fn inline_tags(b: Seq<u8>, n: int) -> Seq<Span>
    decreases n,
{
    if n <= 0 {
        Seq::empty()
    } else if tag_start(b, n - 1) {
        inline_tags(b, n - 1).push(Span { start: n - 1, end: tag_end(b, n) })
    } else {
        inline_tags(b, n - 1)
    }
}

proof fn lemma_tag_end(b: Seq<u8>, i: int)
    requires
        boundary(b, i),
    ensures
        i <= tag_end(b, i) <= b.len(),
        boundary(b, tag_end(b, i)),
    decreases b.len() - i,
{
    lemma_next_boundary(b, i);
    if i < b.len() && !white_here(b, i) && b[i] != 35 {
        lemma_tag_end(b, next_boundary(b, i));
    }
}

/// Inline tags lie in the text, each starting with `#`; they start and end
/// between characters.
pub proof fn lemma_inline_tags(b: Seq<u8>, n: int)
    requires
        valid_utf8(b),
        0 <= n <= b.len(),
    ensures
        forall|i: int|
            0 <= i < inline_tags(b, n).len() ==> 0 <= (#[trigger] inline_tags(b, n)[i]).start
                < inline_tags(b, n)[i].end <= b.len() && b[inline_tags(b, n)[i].start] == 35
                && boundary(b, inline_tags(b, n)[i].end),
    decreases n,
{
    if n > 0 {
        lemma_inline_tags(b, n - 1);
        if tag_start(b, n - 1) {
            lemma_after_ascii(b, n - 1);
            lemma_tag_end(b, n);
        }
        let rest = inline_tags(b, n - 1);
        let all = inline_tags(b, n);
        assert forall|i: int| 0 <= i < all.len() implies 0 <= (#[trigger] all[i]).start
            < all[i].end <= b.len() && b[all[i].start] == 35 && boundary(b, all[i].end) by {
            if i < rest.len() {
                assert(all[i] == rest[i]);
            }
        }
    }
}

proof fn lemma_inside_character(b: Seq<u8>, i: int, k: int)
    requires
        0 <= i < k < next_boundary(b, i),
    ensures
        k < b.len(),
        b[k] != 35,
    decreases k - i,
{
    lemma_next_boundary(b, i);
    if i + 1 < b.len() && !boundary(b, i + 1) {
        if k > i + 1 {
            lemma_inside_character(b, i + 1, k);
        } else {
            if b[k] == 35 {
                lemma_ascii_is_boundary(b, k);
            }
        }
    }
}

proof fn lemma_no_tag_between(b: Seq<u8>, i: int, j: int)
    requires
        0 <= i <= j <= b.len(),
        forall|k: int| i <= k < j ==> b[k] != 35,
    ensures
        inline_tags(b, j) == inline_tags(b, i),
    decreases j - i,
{
    if i < j {
        lemma_no_tag_between(b, i, j - 1);
    }
}

/// The `#tag` tokens anywhere in `text`, in source order. A token is a `#` led
/// by white space or by nothing and what follows it up to white space or
/// another `#`; an embedded `#`, as in an address, starts none. A bare `#`
/// counts.
pub fn parse_inline_tags(text: &str) -> (tags: Vec<Range<usize>>)
    ensures
        spans(tags@) == inline_tags(utf8(text@), utf8(text@).len() as int),
{
    let bytes = text.as_bytes();
    let ghost b = utf8(text@);
    proof {
        lemma_utf8_valid(text@);
    }
    let mut tags: Vec<Range<usize>> = Vec::new();
    let mut i: usize = 0;
    assert(spans(tags@) =~= Seq::<Span>::empty());
    while i < bytes.len()
        invariant
            bytes@ == b,
            b == utf8(text@),
            valid_utf8(b),
            i <= bytes.len(),
            spans(tags@) == inline_tags(b, i as int),
        decreases bytes.len() - i,
    {
        if bytes[i] == 35 && (i == 0 || is_white_before(text, i)) {
            let mut end: usize = i + 1;
            proof {
                lemma_after_ascii(b, i as int);
            }
            while end < bytes.len() && !text::is_white(text::get_char(text, end)) && bytes[end]
                != 35
                invariant
                    bytes@ == b,
                    b == utf8(text@),
                    i < end <= bytes.len(),
                    boundary(b, end as int),
                    tag_end(b, end as int) == tag_end(b, i + 1),
                    forall|k: int| i < k < end ==> b[k] != 35,
                decreases bytes.len() - end,
            {
                proof {
                    lemma_next_boundary(b, end as int);
                    assert forall|k: int| end < k < next_boundary(b, end as int) implies b[k]
                        != 35 by {
                        lemma_inside_character(b, end as int, k);
                    }
                }
                end = next_char_boundary(text, end);
            }
            let ghost prev = tags@;
            tags.push(i..end);
            proof {
                lemma_no_tag_between(b, i + 1, end as int);
                assert(spans(tags@) =~= spans(prev).push(
                    Span { start: i as int, end: end as int },
                ));
            }
            i = end;
        } else {
            i += 1;
        }
    }
    tags
}

// ---------------------------------------------------------------------------
// Visual lines
// ---------------------------------------------------------------------------

/// Where the drawn part of a line ends: in front of a closing line feed.
pub open spec fn visible_end(b: Seq<u8>, line: Span) -> int {
    if line.end > line.start && line.end - 1 < b.len() && b[line.end - 1] == 10 {
        line.end - 1
    } else {
        line.end
    }
}

/// The end of the visible part of `line`: a closing line feed belongs to the
/// line but is not drawn.
pub fn trim_nl_end(text: &str, line: &Range<usize>) -> (r: usize)
    ensures
        r == visible_end(utf8(text@), span(*line)),
{
    if line.end > line.start && line.end - 1 < text::len(text) && text::byte_at(
        text,
        line.end - 1,
    ) == 10 {
        line.end - 1
    } else {
        line.end
    }
}

/// Every line runs forward.
pub open spec fn lines_forward(lines: Seq<Span>) -> bool {
    forall|i: int| 0 <= i < lines.len() ==> (#[trigger] lines[i]).start <= lines[i].end
}

/// The first line at or after `from` that reaches `idx`; the number of lines
/// where none does.
pub open spec fn line_reaching(lines: Seq<Span>, idx: int, from: int) -> int
    decreases lines.len() - from,
{
    if from < 0 || from >= lines.len() {
        lines.len() as int
    } else if idx <= lines[from].end {
        from
    } else {
        line_reaching(lines, idx, from + 1)
    }
}

/// The visual line of a caret and its offset in that line.
pub open spec fn caret_place(lines: Seq<Span>, idx: int, affinity: Affinity) -> (int, int) {
    let i = line_reaching(lines, idx, 0);
    if lines.len() == 0 {
        (0, 0)
    } else if i >= lines.len() {
        (lines.len() - 1, lines.last().end - lines.last().start)
    } else if idx == lines[i].end && affinity == Affinity::Downstream && i + 1 < lines.len() {
        (i + 1, 0)
    } else if idx < lines[i].start {
        (i, 0)
    } else {
        (i, idx - lines[i].start)
    }
}

pub proof fn lemma_line_reaching(lines: Seq<Span>, idx: int, from: int)
    requires
        0 <= from <= lines.len(),
    ensures
        from <= line_reaching(lines, idx, from) <= lines.len(),
        line_reaching(lines, idx, from) < lines.len() ==> idx <= lines[line_reaching(
            lines,
            idx,
            from,
        )].end,
    decreases lines.len() - from,
{
    if from < lines.len() && idx > lines[from].end {
        lemma_line_reaching(lines, idx, from + 1);
    }
}

/// A caret's place is a line, and an offset in it.
pub proof fn lemma_caret_place(lines: Seq<Span>, idx: int, affinity: Affinity)
    requires
        lines_forward(lines),
        lines.len() > 0,
    ensures
        0 <= caret_place(lines, idx, affinity).0 < lines.len(),
        0 <= caret_place(lines, idx, affinity).1 <= lines[caret_place(lines, idx, affinity).0].end
            - lines[caret_place(lines, idx, affinity).0].start,
{
    lemma_line_reaching(lines, idx, 0);
    let i = caret_place(lines, idx, affinity).0;
    assert(lines[i].start <= lines[i].end);
}

/// The visual line that the caret at `idx` is on, and its offset in that line.
/// At a wrap boundary a downstream caret is on the later line.
pub fn locate_caret(lines: &[Range<usize>], idx: usize, affinity: Affinity) -> (r: (usize, usize))
    requires
        lines_forward(spans(lines@)),
    ensures
        (r.0 as int, r.1 as int) == caret_place(spans(lines@), idx as int, affinity),
{
    if lines.len() == 0 {
        return (0, 0);
    }
    let ghost ls = spans(lines@);
    let mut i: usize = 0;
    while i < lines.len()
        invariant
            i <= lines.len(),
            ls == spans(lines@),
            lines_forward(ls),
            lines.len() > 0,
            line_reaching(ls, idx as int, 0) == line_reaching(ls, idx as int, i as int),
        decreases lines.len() - i,
    {
        assert(ls[i as int] == span(lines@[i as int]));
        if idx <= lines[i].end {
            if idx == lines[i].end && affinity == Affinity::Downstream && i + 1 < lines.len() {
                return (i + 1, 0);
            }
            if idx < lines[i].start {
                return (i, 0);
            }
            return (i, idx - lines[i].start);
        }
        i += 1;
    }
    let last: usize = lines.len() - 1;
    assert(ls[last as int] == span(lines@[last as int]));
    (last, lines[last].end - lines[last].start)
}

/// `idx` is where a line other than the last ends.
pub open spec fn wraps_at(lines: Seq<Span>, idx: int) -> bool {
    exists|i: int| 0 <= i < lines.len() - 1 && (#[trigger] lines[i]).end == idx
}

/// Whether `idx` is a wrap boundary: the end of a line other than the last.
pub fn is_wrap_boundary(body_lines: &[Range<usize>], idx: usize) -> (r: bool)
    ensures
        r == wraps_at(spans(body_lines@), idx as int),
{
    if body_lines.len() < 2 {
        return false;
    }
    let ghost ls = spans(body_lines@);
    let mut i: usize = 0;
    while i < body_lines.len() - 1
        invariant
            2 <= body_lines.len(),
            i <= body_lines.len() - 1,
            ls == spans(body_lines@),
            forall|k: int| 0 <= k < i ==> (#[trigger] ls[k]).end != idx,
        decreases body_lines.len() - i,
    {
        assert(ls[i as int] == span(body_lines@[i as int]));
        if body_lines[i].end == idx {
            return true;
        }
        i += 1;
    }
    false
}

/// A caret one step from `head`: over the wrap boundary it sits at, where it
/// can change sides, else over one character.
pub open spec fn stepped(
    b: Seq<u8>,
    lines: Seq<Span>,
    head: int,
    affinity: Affinity,
    forward: bool,
) -> (int, Affinity) {
    if forward {
        if affinity == Affinity::Upstream && wraps_at(lines, head) {
            (head, Affinity::Downstream)
        } else {
            let next = next_boundary(b, head);
            (
                next,
                if wraps_at(lines, next) {
                    Affinity::Upstream
                } else {
                    Affinity::Downstream
                },
            )
        }
    } else if affinity == Affinity::Downstream && wraps_at(lines, head) {
        (head, Affinity::Upstream)
    } else {
        (prev_boundary(b, head), Affinity::Downstream)
    }
}

/// Moves a caret one step forward (`dir > 0`) or back.
pub fn step_horizontal(
    text: &str,
    body_lines: &[Range<usize>],
    head: usize,
    affinity: Affinity,
    dir: i32,
) -> (r: (usize, Affinity))
    ensures
        (r.0 as int, r.1) == stepped(
            utf8(text@),
            spans(body_lines@),
            head as int,
            affinity,
            dir > 0,
        ),
{
    if dir > 0 {
        if affinity == Affinity::Upstream && is_wrap_boundary(body_lines, head) {
            return (head, Affinity::Downstream);
        }
        let next: usize = next_char_boundary(text, head);
        if is_wrap_boundary(body_lines, next) {
            (next, Affinity::Upstream)
        } else {
            (next, Affinity::Downstream)
        }
    } else {
        if affinity == Affinity::Downstream && is_wrap_boundary(body_lines, head) {
            return (head, Affinity::Upstream);
        }
        (prev_char_boundary(text, head), Affinity::Downstream)
    }
}

/// The side of a wrap boundary on which a click on line `line_idx` that hits
/// `idx` puts the caret.
pub open spec fn affinity_of_hit(lines: Seq<Span>, line_idx: int, idx: int) -> Affinity {
    if idx == lines[line_idx].start && line_idx > 0 {
        Affinity::Downstream
    } else if idx == lines[line_idx].end && line_idx + 1 < lines.len() {
        Affinity::Upstream
    } else {
        Affinity::Downstream
    }
}

/// The affinity of a click on line `line_idx` that hits byte `idx`.
pub fn hit_affinity(line_idx: usize, idx: usize, body_lines: &[Range<usize>]) -> (r: Affinity)
    requires
        line_idx < body_lines@.len(),
    ensures
        r == affinity_of_hit(spans(body_lines@), line_idx as int, idx as int),
{
    assert(spans(body_lines@)[line_idx as int] == span(body_lines@[line_idx as int]));
    if idx == body_lines[line_idx].start && line_idx > 0 {
        Affinity::Downstream
    } else if idx == body_lines[line_idx].end && line_idx + 1 < body_lines.len() {
        Affinity::Upstream
    } else {
        Affinity::Downstream
    }
}

/// The visual line of the caret at `idx`; an empty range where there are no
/// lines.
pub fn find_line_at(body_lines: &[Range<usize>], idx: usize, affinity: Affinity) -> (r: Range<
    usize,
>)
    requires
        lines_forward(spans(body_lines@)),
    ensures
        span(r) == line_of(spans(body_lines@), idx as int, affinity),
{
    if body_lines.len() == 0 {
        return 0..0;
    }
    proof {
        lemma_caret_place(spans(body_lines@), idx as int, affinity);
    }
    let (line_idx, _) = locate_caret(body_lines, idx, affinity);
    copy_range(&body_lines[line_idx])
}

/// The visual line of a caret.
pub open spec fn line_of(lines: Seq<Span>, idx: int, affinity: Affinity) -> Span {
    if lines.len() == 0 {
        Span { start: 0, end: 0 }
    } else {
        lines[caret_place(lines, idx, affinity).0]
    }
}

// ---------------------------------------------------------------------------
// Characters and words
// ---------------------------------------------------------------------------

/// The first offset behind `i` at which a character starts or the text ends.
pub open spec fn next_boundary(b: Seq<u8>, i: int) -> int
    decreases b.len() - i,
{
    if i + 1 >= b.len() {
        b.len() as int
    } else if boundary(b, i + 1) {
        i + 1
    } else {
        next_boundary(b, i + 1)
    }
}

/// The last offset in front of `i` at which a character starts or the text
/// ends; 0 where there is none.
pub open spec fn prev_boundary(b: Seq<u8>, i: int) -> int
    decreases i,
{
    if i <= 1 {
        0
    } else if boundary(b, i - 1) {
        i - 1
    } else {
        prev_boundary(b, i - 1)
    }
}

pub proof fn lemma_next_boundary(b: Seq<u8>, i: int)
    requires
        0 <= i,
    ensures
        i < b.len() ==> i < next_boundary(b, i),
        next_boundary(b, i) <= b.len(),
        boundary(b, next_boundary(b, i)),
    decreases b.len() - i,
{
    if i + 1 < b.len() && !boundary(b, i + 1) {
        lemma_next_boundary(b, i + 1);
    }
}

pub proof fn lemma_prev_boundary(b: Seq<u8>, i: int)
    requires
        valid_utf8(b),
    ensures
        i > 0 ==> 0 <= prev_boundary(b, i) < i,
        boundary(b, prev_boundary(b, i)),
    decreases i,
{
    lemma_boundary_ends(b);
    if i > 1 && !boundary(b, i - 1) {
        lemma_prev_boundary(b, i - 1);
    }
}

/// The end of the character that `idx` lies in; the end of the text where none
/// follows.
pub fn next_char_boundary(text: &str, idx: usize) -> (r: usize)
    ensures
        r == next_boundary(utf8(text@), idx as int),
{
    let n: usize = text::len(text);
    if idx >= n {
        return n;
    }
    let mut i: usize = idx + 1;
    while i < n && !text::is_boundary(text, i)
        invariant
            n == utf8(text@).len(),
            idx < i <= n,
            next_boundary(utf8(text@), i - 1) == next_boundary(utf8(text@), idx as int),
        decreases n - i,
    {
        i += 1;
    }
    i
}

/// The start of the character in front of `idx`; 0 where there is none.
pub fn prev_char_boundary(text: &str, idx: usize) -> (r: usize)
    ensures
        r == prev_boundary(utf8(text@), idx as int),
{
    if idx == 0 {
        return 0;
    }
    let mut i: usize = idx - 1;
    while i > 0 && !text::is_boundary(text, i)
        invariant
            i < idx,
            prev_boundary(utf8(text@), i + 1) == prev_boundary(utf8(text@), idx as int),
        decreases i,
    {
        i -= 1;
    }
    i
}

/// What words are made of, what separates them, and the rest.
#[derive(Clone, Copy, Debug, PartialEq, Eq, Structural)]
pub enum CharClass {
    Word,
    Whitespace,
    Other,
}

/// Whether std counts `c` as a letter or a digit.
pub uninterp spec fn alphanumeric(c: char) -> bool;

/// `char::is_alphanumeric`: whether `c` is a letter or a number by Unicode's
/// tables. Of those only the ASCII part is stated.
#[verifier::external_body]
fn is_alphanumeric(c: char) -> (r: bool)
    ensures
        r == alphanumeric(c),
        c < '\u{80}' ==> r == ('0' <= c <= '9' || 'A' <= c <= 'Z' || 'a' <= c <= 'z'),
{
    c.is_alphanumeric()
}

/// The class of a character.
pub open spec fn class_of(c: char) -> CharClass {
    if white(c) {
        CharClass::Whitespace
    } else if alphanumeric(c) || c == '_' {
        CharClass::Word
    } else {
        CharClass::Other
    }
}

/// The class of `c`.
pub fn char_class(c: char) -> (r: CharClass)
    ensures
        r == class_of(c),
{
    if text::is_white(c) {
        CharClass::Whitespace
    } else if is_alphanumeric(c) || c == '_' {
        CharClass::Word
    } else {
        CharClass::Other
    }
}

/// The class of the character at `i`, where one starts there.
pub open spec fn class_at(b: Seq<u8>, i: int) -> Option<CharClass> {
    if boundary(b, i) && i < b.len() {
        Some(class_of(char_at(b, i)))
    } else {
        None
    }
}

/// The class of the character at byte `i`, where one starts there.
pub fn class_at_byte(text: &str, i: usize) -> (r: Option<CharClass>)
    ensures
        r == class_at(utf8(text@), i as int),
{
    if text::is_boundary(text, i) && i < text::len(text) {
        Some(char_class(text::get_char(text, i)))
    } else {
        None
    }
}

fn same_class(a: Option<CharClass>, b: Option<CharClass>) -> (r: bool)
    ensures
        r == (a == b),
{
    match (a, b) {
        (Some(x), Some(y)) => x == y,
        (None, None) => true,
        _ => false,
    }
}

/// Where the run of characters of class `class` that reaches back from `start`
/// begins.
pub open spec fn run_start(b: Seq<u8>, start: int, class: Option<CharClass>) -> int
    decreases start,
{
    let p = prev_boundary(b, start);
    if start > 0 && 0 <= p < start && class_at(b, p) == class {
        run_start(b, p, class)
    } else {
        start
    }
}

/// Where the run of characters of class `class` that goes on at `end` ends.
pub open spec fn run_end(b: Seq<u8>, end: int, class: Option<CharClass>) -> int
    decreases b.len() - end,
{
    let n = next_boundary(b, end);
    if end < n <= b.len() && class_at(b, end) == class {
        run_end(b, n, class)
    } else {
        end
    }
}

pub proof fn lemma_run_start(b: Seq<u8>, start: int, class: Option<CharClass>)
    requires
        valid_utf8(b),
        boundary(b, start),
    ensures
        0 <= run_start(b, start, class) <= start,
        boundary(b, run_start(b, start, class)),
    decreases start,
{
    lemma_prev_boundary(b, start);
    let p = prev_boundary(b, start);
    if start > 0 && class_at(b, p) == class {
        lemma_run_start(b, p, class);
    }
}

pub proof fn lemma_run_end(b: Seq<u8>, end: int, class: Option<CharClass>)
    requires
        boundary(b, end),
    ensures
        end <= run_end(b, end, class) <= b.len(),
        boundary(b, run_end(b, end, class)),
    decreases b.len() - end,
{
    lemma_next_boundary(b, end);
    let n = next_boundary(b, end);
    if end < b.len() && class_at(b, end) == class {
        lemma_run_end(b, n, class);
    }
}

/// A run is as long as can be and of one class: every character in it has the
/// class, and the characters at its two ends outside it, where there are any,
/// do not.
pub proof fn runs_are_maximal(b: Seq<u8>, from: int, class: Option<CharClass>)
    requires
        valid_utf8(b),
        boundary(b, from),
    ensures
        forall|i: int|
            run_start(b, from, class) <= i < from && boundary(b, i) ==> #[trigger] class_at(b, i)
                == class,
        run_start(b, from, class) > 0 ==> class_at(b, prev_boundary(b, run_start(b, from, class)))
            != class,
        forall|i: int|
            from <= i < run_end(b, from, class) && boundary(b, i) ==> #[trigger] class_at(b, i)
                == class,
        run_end(b, from, class) < b.len() ==> class_at(b, run_end(b, from, class)) != class,
{
    lemma_run_start_maximal(b, from, class);
    lemma_run_end_maximal(b, from, class);
}

pub proof fn lemma_no_boundary_between(b: Seq<u8>, i: int)
    requires
        0 <= i,
    ensures
        forall|k: int| i < k < next_boundary(b, i) ==> !#[trigger] boundary(b, k),
    decreases b.len() - i,
{
    if i + 1 < b.len() && !boundary(b, i + 1) {
        lemma_no_boundary_between(b, i + 1);
    }
}

pub proof fn lemma_no_boundary_before(b: Seq<u8>, i: int)
    ensures
        forall|k: int| prev_boundary(b, i) < k < i ==> !#[trigger] boundary(b, k),
    decreases i,
{
    if i > 1 && !boundary(b, i - 1) {
        lemma_no_boundary_before(b, i - 1);
    }
}

proof fn lemma_run_start_maximal(b: Seq<u8>, start: int, class: Option<CharClass>)
    requires
        valid_utf8(b),
        boundary(b, start),
    ensures
        forall|i: int|
            run_start(b, start, class) <= i < start && boundary(b, i) ==> #[trigger] class_at(b, i)
                == class,
        run_start(b, start, class) > 0 ==> class_at(
            b,
            prev_boundary(b, run_start(b, start, class)),
        ) != class,
    decreases start,
{
    lemma_prev_boundary(b, start);
    lemma_no_boundary_before(b, start);
    let p = prev_boundary(b, start);
    if start > 0 && class_at(b, p) == class {
        lemma_run_start_maximal(b, p, class);
        assert forall|i: int|
            run_start(b, start, class) <= i < start && boundary(b, i) implies #[trigger] class_at(
            b,
            i,
        ) == class by {
            if i >= p && i != p {
                assert(!boundary(b, i));
            }
        }
    }
}

proof fn lemma_run_end_maximal(b: Seq<u8>, end: int, class: Option<CharClass>)
    requires
        boundary(b, end),
    ensures
        forall|i: int|
            end <= i < run_end(b, end, class) && boundary(b, i) ==> #[trigger] class_at(b, i)
                == class,
        run_end(b, end, class) < b.len() ==> class_at(b, run_end(b, end, class)) != class,
    decreases b.len() - end,
{
    lemma_next_boundary(b, end);
    lemma_no_boundary_between(b, end);
    let n = next_boundary(b, end);
    if end < b.len() && class_at(b, end) == class {
        lemma_run_end_maximal(b, n, class);
        assert forall|i: int|
            end <= i < run_end(b, end, class) && boundary(b, i) implies #[trigger] class_at(b, i)
            == class by {
            if end < i < n {
                assert(!boundary(b, i));
            }
        }
    }
}

fn run_start_of(text: &str, from: usize, class: Option<CharClass>) -> (r: usize)
    ensures
        r == run_start(utf8(text@), from as int, class),
{
    let ghost b = utf8(text@);
    let mut start: usize = from;
    proof {
        lemma_utf8_valid(text@);
    }
    while start > 0
        invariant
            b == utf8(text@),
            valid_utf8(b),
            start <= from,
            run_start(b, start as int, class) == run_start(b, from as int, class),
        decreases start,
    {
        let p: usize = prev_char_boundary(text, start);
        proof {
            lemma_prev_boundary(b, start as int);
        }
        if same_class(class_at_byte(text, p), class) {
            start = p;
        } else {
            return start;
        }
    }
    start
}

fn run_end_of(text: &str, from: usize, class: Option<CharClass>) -> (r: usize)
    ensures
        r == run_end(utf8(text@), from as int, class),
{
    let ghost b = utf8(text@);
    let mut end: usize = from;
    while end < text::len(text) && same_class(class_at_byte(text, end), class)
        invariant
            b == utf8(text@),
            run_end(b, end as int, class) == run_end(b, from as int, class),
        decreases b.len() - end,
    {
        proof {
            lemma_next_boundary(b, end as int);
        }
        end = next_char_boundary(text, end);
    }
    end
}

/// The run of one class that a double click at `idx` selects. Between two runs
/// a word wins, else the run behind `idx`.
pub open spec fn word_at(b: Seq<u8>, idx: int) -> Span {
    let here = class_at(b, idx);
    let before = prev_boundary(b, idx);
    let left = if idx <= 0 {
        None
    } else {
        class_at(b, before)
    };
    if b.len() == 0 {
        Span { start: 0, end: 0 }
    } else if here is None && left is None {
        Span { start: idx, end: idx }
    } else {
        let back = here is None || (left is Some && left != here && left == Some(CharClass::Word));
        let probe = if back {
            before
        } else {
            idx
        };
        let class = if back {
            left
        } else {
            here
        };
        Span {
            start: run_start(b, probe, class),
            end: run_end(b, next_boundary(b, probe), class),
        }
    }
}

/// The run of one class at `idx`, for a double click there.
pub fn find_word_at(text: &str, idx: usize) -> (r: Range<usize>)
    ensures
        span(r) == word_at(utf8(text@), idx as int),
{
    let ghost b = utf8(text@);
    if text::len(text) == 0 {
        return 0..0;
    }
    let here = class_at_byte(text, idx);
    let before: usize = prev_char_boundary(text, idx);
    let left = if idx == 0 {
        None
    } else {
        class_at_byte(text, before)
    };
    if here.is_none() && left.is_none() {
        return idx..idx;
    }
    let back: bool = here.is_none() || (left.is_some() && !same_class(left, here) && same_class(
        left,
        Some(CharClass::Word),
    ));
    let probe: usize = if back {
        before
    } else {
        idx
    };
    let class = if back {
        left
    } else {
        here
    };
    let start: usize = run_start_of(text, probe, class);
    let end: usize = run_end_of(text, next_char_boundary(text, probe), class);
    start..end
}

/// The run that ends at `idx`, of the class of the character in front of it.
pub open spec fn word_left(b: Seq<u8>, idx: int) -> Span {
    if idx <= 0 {
        Span { start: 0, end: 0 }
    } else {
        let p = prev_boundary(b, idx);
        Span { start: run_start(b, p, class_at(b, p)), end: idx }
    }
}

/// The run that starts at `idx`, of the class of the character there.
pub open spec fn word_right(b: Seq<u8>, idx: int) -> Span {
    if idx >= b.len() {
        Span { start: idx, end: idx }
    } else {
        Span { start: idx, end: run_end(b, next_boundary(b, idx), class_at(b, idx)) }
    }
}

/// From the start of the run in front of `idx` up to `idx`; empty at the start
/// of the text.
pub fn find_word_left_of(text: &str, idx: usize) -> (r: Range<usize>)
    ensures
        span(r) == word_left(utf8(text@), idx as int),
{
    if idx == 0 {
        return 0..0;
    }
    let prev: usize = prev_char_boundary(text, idx);
    let target = class_at_byte(text, prev);
    run_start_of(text, prev, target)..idx
}

/// From `idx` to the end of the run that starts there; empty at the end of the
/// text.
pub fn find_word_right_of(text: &str, idx: usize) -> (r: Range<usize>)
    ensures
        span(r) == word_right(utf8(text@), idx as int),
{
    if idx >= text::len(text) {
        return idx..idx;
    }
    let target = class_at_byte(text, idx);
    idx..run_end_of(text, next_char_boundary(text, idx), target)
}

/// Words left and right of a boundary lie in the text and end at boundaries.
pub proof fn lemma_word_bounds(b: Seq<u8>, idx: int)
    requires
        valid_utf8(b),
        boundary(b, idx),
    ensures
        0 <= word_left(b, idx).start <= word_left(b, idx).end == idx,
        boundary(b, word_left(b, idx).start),
        idx > 0 ==> word_left(b, idx).start < idx,
        word_right(b, idx).start == idx <= word_right(b, idx).end <= b.len(),
        boundary(b, word_right(b, idx).end),
        0 <= word_at(b, idx).start <= word_at(b, idx).end <= b.len(),
        boundary(b, word_at(b, idx).start),
        boundary(b, word_at(b, idx).end),
{
    lemma_boundary_ends(b);
    if idx > 0 {
        let p = prev_boundary(b, idx);
        lemma_prev_boundary(b, idx);
        lemma_run_start(b, p, class_at(b, p));
        lemma_next_boundary(b, p);
        lemma_run_end(b, next_boundary(b, p), class_at(b, p));
    }
    lemma_next_boundary(b, idx);
    lemma_run_start(b, idx, class_at(b, idx));
    lemma_run_end(b, next_boundary(b, idx), class_at(b, idx));
}

// ---------------------------------------------------------------------------
// Wrapping
// ---------------------------------------------------------------------------

/// The words of the text from `p` to `end`, `open` being where a word that runs
/// on at `p` started.
pub open spec fn words_from(b: Seq<u8>, p: int, end: int, open: Option<int>) -> Seq<Span>
    decreases end - p,
{
    let n = next_boundary(b, p);
    if p >= end || n <= p || n > end {
        match open {
            Some(s) => seq![Span { start: s, end }],
            None => Seq::empty(),
        }
    } else if white(char_at(b, p)) {
        match open {
            Some(s) => seq![Span { start: s, end: p }] + words_from(b, n, end, None),
            None => words_from(b, n, end, None),
        }
    } else {
        words_from(
            b,
            n,
            end,
            match open {
                Some(s) => Some(s),
                None => Some(p),
            },
        )
    }
}

/// Words are not empty, lie between `lo` and `end` in order, and start and end
/// at boundaries.
pub open spec fn words_ok(b: Seq<u8>, words: Seq<Span>, lo: int, end: int) -> bool {
    &&& forall|i: int|
        #![trigger words[i]]
        0 <= i < words.len() ==> lo <= words[i].start < words[i].end <= end && boundary(
            b,
            words[i].start,
        ) && boundary(b, words[i].end)
    &&& forall|i: int, j: int|
        0 <= i < j < words.len() ==> (#[trigger] words[i]).end <= (#[trigger] words[j]).start
}

pub proof fn lemma_words_from(b: Seq<u8>, p: int, end: int, open: Option<int>)
    requires
        boundary(b, p),
        boundary(b, end),
        0 <= p <= end,
        open matches Some(s) ==> 0 <= s < p && boundary(b, s),
    ensures
        words_ok(
            b,
            words_from(b, p, end, open),
            match open {
                Some(s) => s,
                None => p,
            },
            end,
        ),
        open is Some ==> words_from(b, p, end, open).len() > 0 && words_from(
            b,
            p,
            end,
            open,
        )[0].start == open->0,
    decreases end - p,
{
    if p < end {
        lemma_next_boundary(b, p);
        lemma_no_boundary_between(b, p);
        let n = next_boundary(b, p);
        assert(n <= end) by {
            if end < n {
                assert(!boundary(b, end));
            }
        }
        if white(char_at(b, p)) {
            lemma_words_from(b, n, end, None);
            if let Some(s) = open {
                let rest = words_from(b, n, end, None);
                let all = words_from(b, p, end, open);
                assert forall|i: int| #![trigger all[i]] 0 <= i < all.len() implies s
                    <= all[i].start < all[i].end <= end && boundary(b, all[i].start) && boundary(
                    b,
                    all[i].end,
                ) by {
                    if i > 0 {
                        assert(all[i] == rest[i - 1]);
                    }
                }
                assert forall|i: int, j: int| 0 <= i < j < all.len() implies (
                #[trigger] all[i]).end <= (#[trigger] all[j]).start by {
                    assert(all[j] == rest[j - 1]);
                    if i > 0 {
                        assert(all[i] == rest[i - 1]);
                    }
                }
            }
        } else {
            lemma_words_from(
                b,
                n,
                end,
                match open {
                    Some(s) => Some(s),
                    None => Some(p),
                },
            );
        }
    }
}

/// The words of the text from `start` to `end`.
fn words_between(text: &str, start: usize, end: usize) -> (words: Vec<Range<usize>>)
    requires
        start <= end,
        boundary(utf8(text@), start as int),
        boundary(utf8(text@), end as int),
    ensures
        spans(words@) == words_from(utf8(text@), start as int, end as int, None),
        words_ok(utf8(text@), spans(words@), start as int, end as int),
{
    let ghost b = utf8(text@);
    proof {
        lemma_words_from(b, start as int, end as int, None);
    }
    let mut words: Vec<Range<usize>> = Vec::new();
    let mut open: Option<usize> = None;
    let mut p: usize = start;
    assert(spans(words@) + words_from(b, p as int, end as int, None) =~= words_from(
        b,
        p as int,
        end as int,
        None,
    ));
    while p < end
        invariant
            b == utf8(text@),
            start <= p <= end,
            boundary(b, p as int),
            boundary(b, end as int),
            words_from(b, start as int, end as int, None) == spans(words@) + words_from(
                b,
                p as int,
                end as int,
                match open {
                    Some(s) => Some(s as int),
                    None => None,
                },
            ),
        decreases end - p,
    {
        proof {
            lemma_next_boundary(b, p as int);
            lemma_no_boundary_between(b, p as int);
            if end < next_boundary(b, p as int) {
                assert(!boundary(b, end as int));
            }
        }
        let n: usize = next_char_boundary(text, p);
        if text::is_white(text::get_char(text, p)) {
            if let Some(s) = open {
                let ghost prev = words@;
                words.push(s..p);
                assert(spans(words@) =~= spans(prev).push(Span { start: s as int, end: p as int }));
                assert(spans(words@) + words_from(b, n as int, end as int, None) =~= spans(prev)
                    + words_from(b, p as int, end as int, Some(s as int)));
            }
            open = None;
        } else if open.is_none() {
            open = Some(p);
        }
        p = n;
    }
    if let Some(s) = open {
        let ghost prev = words@;
        words.push(s..end);
        assert(spans(words@) =~= spans(prev) + seq![Span { start: s as int, end: end as int }]);
    } else {
        assert(spans(words@) =~= spans(words@) + Seq::<Span>::empty());
    }
    words
}

/// How far from `cursor` a prefix of the word that ends at `end` fits: the last
/// boundary in front of the first one whose prefix is too wide; `end` where none
/// is.
pub open spec fn fitting_end(
    b: Seq<u8>,
    cursor: int,
    end: int,
    i: int,
    fit: int,
    wide: spec_fn(int, int) -> bool,
) -> int
    decreases end - i,
{
    let n = next_boundary(b, i);
    if i >= end || n <= i || n > end {
        if wide(cursor, end) {
            fit
        } else {
            end
        }
    } else if i > cursor && wide(cursor, i) {
        fit
    } else {
        fitting_end(
            b,
            cursor,
            end,
            n,
            if i > cursor {
                i
            } else {
                fit
            },
            wide,
        )
    }
}

proof fn lemma_fitting_end(
    b: Seq<u8>,
    cursor: int,
    end: int,
    i: int,
    fit: int,
    wide: spec_fn(int, int) -> bool,
)
    requires
        boundary(b, end),
        boundary(b, i),
        boundary(b, fit),
        0 <= cursor <= fit <= i <= end,
    ensures
        cursor <= fitting_end(b, cursor, end, i, fit, wide) <= end,
        boundary(b, fitting_end(b, cursor, end, i, fit, wide)),
    decreases end - i,
{
    let n = next_boundary(b, i);
    lemma_next_boundary(b, i);
    if i < end && !(i > cursor && wide(cursor, i)) {
        lemma_no_boundary_between(b, i);
        if end < n {
            assert(!boundary(b, end));
        }
        lemma_fitting_end(
            b,
            cursor,
            end,
            n,
            if i > cursor {
                i
            } else {
                fit
            },
            wide,
        );
    }
}

/// A measuring function gives one answer for each part of the text.
pub open spec fn decided<F: Fn(usize, usize) -> bool>(too_wide: F) -> bool {
    &&& forall|a: usize, b: usize| #[trigger] call_requires(too_wide, (a, b))
    &&& forall|a: usize, b: usize|
        !(#[trigger] call_ensures(too_wide, (a, b), true) && call_ensures(too_wide, (a, b), false))
}

/// What a measuring function answers, as a predicate on parts of the text.
pub open spec fn measure<F: Fn(usize, usize) -> bool>(too_wide: F) -> spec_fn(int, int) -> bool {
    |a: int, b: int| call_ensures(too_wide, (a as usize, b as usize), true)
}

/// The end of the largest prefix of `text[cursor..end]` that is not too wide;
/// `cursor` where not even the first character fits. `too_wide(a, b)` tells
/// whether `text[a..b]` is wider than the line.
fn largest_prefix_fitting<F: Fn(usize, usize) -> bool>(
    text: &str,
    cursor: usize,
    end: usize,
    too_wide: &F,
) -> (r: usize)
    requires
        decided(*too_wide),
        cursor < end,
        boundary(utf8(text@), cursor as int),
        boundary(utf8(text@), end as int),
    ensures
        r == fitting_end(
            utf8(text@),
            cursor as int,
            end as int,
            cursor as int,
            cursor as int,
            measure(*too_wide),
        ),
        cursor <= r <= end,
        boundary(utf8(text@), r as int),
{
    let ghost b = utf8(text@);
    let ghost wide = measure(*too_wide);
    let mut fit: usize = cursor;
    let mut i: usize = cursor;
    proof {
        lemma_fitting_end(b, cursor as int, end as int, cursor as int, cursor as int, wide);
    }
    while i < end
        invariant
            b == utf8(text@),
            wide == measure(*too_wide),
            decided(*too_wide),
            cursor <= fit <= i <= end,
            boundary(b, i as int),
            boundary(b, fit as int),
            boundary(b, end as int),
            fitting_end(b, cursor as int, end as int, cursor as int, cursor as int, wide)
                == fitting_end(b, cursor as int, end as int, i as int, fit as int, wide),
        decreases end - i,
    {
        proof {
            lemma_next_boundary(b, i as int);
            lemma_no_boundary_between(b, i as int);
            if end < next_boundary(b, i as int) {
                assert(!boundary(b, end as int));
            }
        }
        if i > cursor {
            let over: bool = too_wide(cursor, i);
            assert(over == wide(cursor as int, i as int));
            if over {
                return fit;
            }
            fit = i;
        }
        i = next_char_boundary(text, i);
    }
    let over: bool = too_wide(cursor, end);
    assert(over == wide(cursor as int, end as int));
    if over {
        fit
    } else {
        end
    }
}

/// Where lines are cut while a word that starts a line and is too wide for it
/// is broken: the lines cut off, and where the rest of the word starts.
pub open spec fn broken_word(
    b: Seq<u8>,
    cursor: int,
    end: int,
    wide: spec_fn(int, int) -> bool,
) -> (Seq<Span>, int)
    decreases end - cursor,
{
    let fit = fitting_end(b, cursor, end, cursor, cursor, wide);
    let next = if fit <= cursor {
        next_boundary(b, cursor)
    } else {
        fit
    };
    if cursor >= end || !wide(cursor, end) || next >= end || next <= cursor {
        (Seq::empty(), cursor)
    } else {
        let rest = broken_word(b, next, end, wide);
        (seq![Span { start: cursor, end: next }] + rest.0, rest.1)
    }
}

/// The lines cut off by the words from the `k`-th on, and where the line that
/// is then open starts.
pub open spec fn wrapped_words(
    b: Seq<u8>,
    words: Seq<Span>,
    k: int,
    line_start: int,
    wide: spec_fn(int, int) -> bool,
) -> (Seq<Span>, int)
    decreases words.len() - k,
{
    if k < 0 || k >= words.len() {
        (Seq::empty(), line_start)
    } else {
        let w = words[k];
        let wraps = k > 0 && wide(line_start, w.end);
        let cut: Seq<Span> = if wraps {
            seq![Span { start: line_start, end: w.start }]
        } else {
            Seq::empty()
        };
        let at = if wraps {
            w.start
        } else {
            line_start
        };
        let inner = if at == w.start && wide(w.start, w.end) {
            broken_word(b, w.start, w.end, wide)
        } else {
            (Seq::empty(), at)
        };
        let rest = wrapped_words(b, words, k + 1, inner.1, wide);
        (cut + inner.0 + rest.0, rest.1)
    }
}

/// The visual lines of one paragraph.
pub open spec fn wrapped_paragraph(
    b: Seq<u8>,
    start: int,
    end: int,
    wide: spec_fn(int, int) -> bool,
) -> Seq<Span> {
    if start >= end {
        seq![Span { start, end }]
    } else {
        let w = wrapped_words(b, words_from(b, start, end, None), 0, start, wide);
        w.0.push(Span { start: w.1, end })
    }
}

/// `lines` follow each other without a gap from `start` to `end`, cut at
/// boundaries.
pub open spec fn chained(b: Seq<u8>, lines: Seq<Span>, start: int, end: int) -> bool
    decreases lines.len(),
{
    if lines.len() == 0 {
        start == end
    } else {
        &&& lines.last().end == end
        &&& lines.last().start <= end
        &&& boundary(b, lines.last().start)
        &&& chained(b, lines.drop_last(), start, lines.last().start)
    }
}

proof fn lemma_chained_push(b: Seq<u8>, lines: Seq<Span>, start: int, mid: int, end: int)
    requires
        chained(b, lines, start, mid),
        boundary(b, mid),
        mid <= end,
    ensures
        chained(b, lines.push(Span { start: mid, end }), start, end),
{
    let all = lines.push(Span { start: mid, end });
    assert(all.drop_last() =~= lines);
}

proof fn lemma_chained_add(b: Seq<u8>, x: Seq<Span>, y: Seq<Span>, start: int, mid: int, end: int)
    requires
        chained(b, x, start, mid),
        chained(b, y, mid, end),
    ensures
        chained(b, x + y, start, end),
    decreases y.len(),
{
    if y.len() == 0 {
        assert(x + y =~= x);
    } else {
        lemma_chained_add(b, x, y.drop_last(), start, mid, y.last().start);
        assert((x + y).drop_last() =~= x + y.drop_last());
    }
}

proof fn lemma_broken_word(b: Seq<u8>, cursor: int, end: int, wide: spec_fn(int, int) -> bool)
    requires
        boundary(b, cursor),
        boundary(b, end),
        cursor < end,
    ensures
        cursor <= broken_word(b, cursor, end, wide).1 < end,
        boundary(b, broken_word(b, cursor, end, wide).1),
        chained(
            b,
            broken_word(b, cursor, end, wide).0,
            cursor,
            broken_word(b, cursor, end, wide).1,
        ),
    decreases end - cursor,
{
    let fit = fitting_end(b, cursor, end, cursor, cursor, wide);
    lemma_fitting_end(b, cursor, end, cursor, cursor, wide);
    lemma_next_boundary(b, cursor);
    let next = if fit <= cursor {
        next_boundary(b, cursor)
    } else {
        fit
    };
    if wide(cursor, end) && next < end {
        lemma_broken_word(b, next, end, wide);
        let one = seq![Span { start: cursor, end: next }];
        assert(one.drop_last() =~= Seq::<Span>::empty());
        reveal_with_fuel(chained, 2);
        assert(chained(b, one, cursor, next));
        lemma_chained_add(
            b,
            one,
            broken_word(b, next, end, wide).0,
            cursor,
            next,
            broken_word(b, next, end, wide).1,
        );
    }
}

proof fn lemma_wrapped_words(
    b: Seq<u8>,
    words: Seq<Span>,
    k: int,
    line_start: int,
    lo: int,
    end: int,
    wide: spec_fn(int, int) -> bool,
)
    requires
        0 <= k <= words.len(),
        words_ok(b, words, lo, end),
        lo <= line_start <= end,
        boundary(b, line_start),
        k < words.len() ==> line_start <= words[k].start,
        k > 0 ==> line_start < words[k - 1].end,
        k == 0 ==> line_start == lo,
    ensures
        line_start <= wrapped_words(b, words, k, line_start, wide).1 <= end,
        boundary(b, wrapped_words(b, words, k, line_start, wide).1),
        chained(
            b,
            wrapped_words(b, words, k, line_start, wide).0,
            line_start,
            wrapped_words(b, words, k, line_start, wide).1,
        ),
        words.len() > 0 ==> wrapped_words(b, words, k, line_start, wide).1 < words.last().end,
    decreases words.len() - k,
{
    if k < words.len() {
        let w = words[k];
        let wraps = k > 0 && wide(line_start, w.end);
        let cut: Seq<Span> = if wraps {
            seq![Span { start: line_start, end: w.start }]
        } else {
            Seq::empty()
        };
        let at = if wraps {
            w.start
        } else {
            line_start
        };
        assert(chained(b, cut, line_start, at)) by {
            if wraps {
                assert(cut.drop_last() =~= Seq::<Span>::empty());
                reveal_with_fuel(chained, 2);
            }
        }
        let inner: (Seq<Span>, int) = if at == w.start && wide(w.start, w.end) {
            broken_word(b, w.start, w.end, wide)
        } else {
            (Seq::empty(), at)
        };
        if at == w.start && wide(w.start, w.end) {
            lemma_broken_word(b, w.start, w.end, wide);
        }
        assert(chained(b, inner.0, at, inner.1));
        if k + 1 < words.len() {
            assert(words[k].end <= words[k + 1].start);
        }
        lemma_wrapped_words(b, words, k + 1, inner.1, lo, end, wide);
        let rest = wrapped_words(b, words, k + 1, inner.1, wide);
        lemma_chained_add(b, cut, inner.0, line_start, at, inner.1);
        lemma_chained_add(b, cut + inner.0, rest.0, line_start, inner.1, rest.1);
    } else if words.len() > 0 {
        assert(words[k - 1] == words.last());
    }
}

/// However wide its words measure, a wrapped paragraph is cut into lines that
/// follow each other without a gap from its start to its end, each cut at a
/// character boundary, and there is at least one line.
pub proof fn wrapped_paragraph_covers(
    b: Seq<u8>,
    start: int,
    end: int,
    wide: spec_fn(int, int) -> bool,
)
    requires
        boundary(b, start),
        boundary(b, end),
        start <= end,
    ensures
        wrapped_paragraph(b, start, end, wide).len() > 0,
        chained(b, wrapped_paragraph(b, start, end, wide), start, end),
{
    if start < end {
        let words = words_from(b, start, end, None);
        lemma_words_from(b, start, end, None);
        lemma_wrapped_words(b, words, 0, start, start, end, wide);
        let w = wrapped_words(b, words, 0, start, wide);
        lemma_chained_push(b, w.0, start, w.1, end);
    } else {
        let one = seq![Span { start, end }];
        assert(one.drop_last() =~= Seq::<Span>::empty());
        reveal_with_fuel(chained, 2);
    }
}

/// Wraps the paragraph from `start` to `end`, which holds no line feed, at
/// words, and inside words that are too wide for a line of their own; appends
/// its lines to `out`. `too_wide(a, b)` tells whether `text[a..b]` is wider than
/// the line.
pub fn wrap_paragraph_into<F: Fn(usize, usize) -> bool>(
    text: &str,
    start: usize,
    end: usize,
    too_wide: &F,
    out: &mut Vec<Range<usize>>,
)
    requires
        decided(*too_wide),
        start < end ==> boundary(utf8(text@), start as int) && boundary(utf8(text@), end as int),
    ensures
        spans(final(out)@) == spans(old(out)@) + wrapped_paragraph(
            utf8(text@),
            start as int,
            end as int,
            measure(*too_wide),
        ),
{
    let ghost b = utf8(text@);
    let ghost wide = measure(*too_wide);
    let ghost before = out@;
    if start >= end {
        out.push(start..end);
        assert(spans(out@) =~= spans(before) + wrapped_paragraph(
            b,
            start as int,
            end as int,
            wide,
        ));
        return ;
    }
    let words = words_between(text, start, end);
    let ghost ws = spans(words@);
    let ghost all = wrapped_words(b, ws, 0, start as int, wide);
    let mut line_start: usize = start;
    let mut k: usize = 0;
    assert(spans(before) + all.0 =~= spans(out@) + all.0);
    while k < words.len()
        invariant
            b == utf8(text@),
            wide == measure(*too_wide),
            decided(*too_wide),
            ws == spans(words@),
            words_ok(b, ws, start as int, end as int),
            k <= words.len(),
            start <= line_start <= end,
            boundary(b, line_start as int),
            k < words.len() ==> line_start <= ws[k as int].start,
            all == wrapped_words(b, ws, 0, start as int, wide),
            spans(before) + all.0 == spans(out@) + wrapped_words(
                b,
                ws,
                k as int,
                line_start as int,
                wide,
            ).0,
            all.1 == wrapped_words(b, ws, k as int, line_start as int, wide).1,
        decreases words.len() - k,
    {
        let ghost from = line_start as int;
        let ghost here = out@;
        let ghost w = ws[k as int];
        assert(w == span(words@[k as int]));
        if k + 1 < words.len() {
            assert(ws[k as int].end <= ws[k + 1].start);
        }
        let word_start: usize = words[k].start;
        let word_end: usize = words[k].end;
        let ghost mut cut: Seq<Span> = Seq::empty();
        if k > 0 {
            let over: bool = too_wide(line_start, word_end);
            assert(over == wide(line_start as int, word_end as int));
            if over {
                out.push(line_start..word_start);
                proof {
                    cut = seq![Span { start: from, end: w.start }];
                }
                line_start = word_start;
            }
        }
        assert(spans(out@) =~= spans(here) + cut);
        let ghost at = line_start as int;
        let ghost outer = out@;
        let ghost mut inner: (Seq<Span>, int) = (Seq::empty(), at);
        if line_start == word_start {
            let over: bool = too_wide(word_start, word_end);
            assert(over == wide(word_start as int, word_end as int));
            if over {
                proof {
                    inner = broken_word(b, w.start, w.end, wide);
                    assert(spans(outer) + inner.0 =~= spans(out@) + inner.0);
                }
                let mut more: bool = true;
                while more
                    invariant
                        b == utf8(text@),
                        wide == measure(*too_wide),
                        decided(*too_wide),
                        w.end == word_end,
                        w.start == word_start,
                        word_start <= line_start < word_end,
                        boundary(b, line_start as int),
                        boundary(b, word_end as int),
                        inner == broken_word(b, w.start, w.end, wide),
                        more ==> spans(outer) + inner.0 == spans(out@) + broken_word(
                            b,
                            line_start as int,
                            w.end,
                            wide,
                        ).0,
                        more ==> inner.1 == broken_word(b, line_start as int, w.end, wide).1,
                        !more ==> spans(out@) == spans(outer) + inner.0 && inner.1 == line_start,
                    decreases
                        word_end - line_start,
                        if more {
                            1int
                        } else {
                            0int
                        },
                {
                    let over: bool = too_wide(line_start, word_end);
                    assert(over == wide(line_start as int, word_end as int));
                    let fit: usize = largest_prefix_fitting(text, line_start, word_end, too_wide);
                    proof {
                        lemma_next_boundary(b, line_start as int);
                    }
                    let next: usize = if fit <= line_start {
                        next_char_boundary(text, line_start)
                    } else {
                        fit
                    };
                    if !over || next >= word_end {
                        proof {
                            assert(spans(out@) + Seq::<Span>::empty() =~= spans(out@));
                        }
                        more = false;
                    } else {
                        let ghost prev = out@;
                        let ghost c = line_start as int;
                        out.push(line_start..next);
                        line_start = next;
                        proof {
                            let one = Span { start: c, end: next as int };
                            assert(spans(out@) =~= spans(prev).push(one));
                            assert(spans(prev) + broken_word(b, c, w.end, wide).0 =~= spans(out@)
                                + broken_word(b, next as int, w.end, wide).0);
                        }
                    }
                }
            }
        }
        assert(spans(out@) =~= spans(here) + cut + inner.0);
        assert(inner.1 == line_start);
        proof {
            let rest = wrapped_words(b, ws, k + 1, inner.1, wide);
            assert(wrapped_words(b, ws, k as int, from, wide).0 == cut + inner.0 + rest.0);
            assert(spans(here) + (cut + inner.0 + rest.0) =~= spans(out@) + rest.0);
        }
        k += 1;
    }
    let ghost last = out@;
    out.push(line_start..end);
    proof {
        assert(wrapped_words(b, ws, k as int, line_start as int, wide).0 =~= Seq::<Span>::empty());
        assert(spans(last) =~= spans(before) + all.0);
        assert(spans(out@) =~= spans(last).push(Span { start: all.1, end: end as int }));
        assert(spans(out@) =~= spans(before) + wrapped_paragraph(
            b,
            start as int,
            end as int,
            wide,
        ));
    }
}

/// The first offset from `p` on that holds no white space; `end` where there is
/// none.
pub open spec fn first_solid(b: Seq<u8>, p: int, end: int) -> int
    decreases end - p,
{
    let n = next_boundary(b, p);
    if p >= end || n <= p || n > end || !white(char_at(b, p)) {
        p
    } else {
        first_solid(b, n, end)
    }
}

/// The paragraph from `start` to `end` is a comment: its first character that
/// is no white space is `#`.
pub open spec fn is_comment(b: Seq<u8>, start: int, end: int) -> bool {
    let p = first_solid(b, start, end);
    p < end && b[p] == 35
}

/// The first offset from `from` on that holds no white space; `end` where there
/// is none.
pub fn solid_from(text: &str, from: usize, end: usize) -> (p: usize)
    requires
        from <= end,
        boundary(utf8(text@), from as int),
        boundary(utf8(text@), end as int),
    ensures
        p == first_solid(utf8(text@), from as int, end as int),
        from <= p <= end,
        boundary(utf8(text@), p as int),
{
    let ghost b = utf8(text@);
    let mut p: usize = from;
    while p < end && text::is_white(text::get_char(text, p))
        invariant
            b == utf8(text@),
            from <= p <= end,
            boundary(b, p as int),
            boundary(b, end as int),
            first_solid(b, from as int, end as int) == first_solid(b, p as int, end as int),
        decreases end - p,
    {
        proof {
            lemma_next_boundary(b, p as int);
            lemma_no_boundary_between(b, p as int);
            if end < next_boundary(b, p as int) {
                assert(!boundary(b, end as int));
            }
        }
        p = next_char_boundary(text, p);
    }
    p
}

fn paragraph_is_comment(text: &str, start: usize, end: usize) -> (r: bool)
    requires
        start <= end,
        boundary(utf8(text@), start as int),
        boundary(utf8(text@), end as int),
    ensures
        r == is_comment(utf8(text@), start as int, end as int),
{
    let p: usize = solid_from(text, start, end);
    p < end && text::byte_at(text, p) == 35
}

/// A visual line, and whether the paragraph it belongs to is a comment.
#[verifier::ext_equal]
pub struct StyledLine {
    pub line: Span,
    pub comment: bool,
}

/// The lines of the paragraph from `start` to `end`; the last one runs on to
/// `close`, behind the line feed that ends the paragraph.
pub open spec fn paragraph_lines(
    b: Seq<u8>,
    start: int,
    end: int,
    close: int,
    wide: spec_fn(int, int) -> bool,
) -> Seq<Span> {
    let p = wrapped_paragraph(b, start, end, wide);
    p.drop_last().push(Span { start: p.last().start, end: close })
}

/// The visual lines of the text from `start` on, where a paragraph starts.
pub open spec fn wrapped_text(
    b: Seq<u8>,
    start: int,
    wide: spec_fn(int, int) -> bool,
) -> Seq<StyledLine>
    decreases b.len() - start,
{
    let nl = first_byte(b, 10, start);
    let comment = is_comment(b, start, nl);
    let close = if nl < b.len() {
        nl + 1
    } else {
        b.len() as int
    };
    let here = paragraph_lines(b, start, nl, close, wide).map_values(
        |l: Span| StyledLine { line: l, comment },
    );
    if start <= nl < b.len() {
        here + wrapped_text(b, nl + 1, wide)
    } else {
        here
    }
}

/// The spans of styled lines.
pub open spec fn line_spans(v: Seq<StyledLine>) -> Seq<Span> {
    v.map_values(|l: StyledLine| l.line)
}

/// The lines of a text that starts at `start` follow each other without a gap
/// up to its end, cut at character boundaries.
pub proof fn lemma_wrapped_text_chained(b: Seq<u8>, start: int, wide: spec_fn(int, int) -> bool)
    requires
        valid_utf8(b),
        boundary(b, start),
    ensures
        chained(b, line_spans(wrapped_text(b, start, wide)), start, b.len() as int),
        wrapped_text(b, start, wide).len() > 0,
    decreases b.len() - start,
{
    lemma_boundary_ends(b);
    lemma_first_byte(b, 10, start);
    let nl = first_byte(b, 10, start);
    if nl < b.len() {
        lemma_after_ascii(b, nl);
    }
    wrapped_paragraph_covers(b, start, nl, wide);
    let p = wrapped_paragraph(b, start, nl, wide);
    let close = if nl < b.len() {
        nl + 1
    } else {
        b.len() as int
    };
    let here = paragraph_lines(b, start, nl, close, wide);
    assert(chained(b, here, start, close)) by {
        assert(here.drop_last() =~= p.drop_last());
    }
    let comment = is_comment(b, start, nl);
    let styled = here.map_values(|l: Span| StyledLine { line: l, comment });
    assert(line_spans(styled) =~= here);
    if nl < b.len() {
        lemma_wrapped_text_chained(b, nl + 1, wide);
        let rest = wrapped_text(b, nl + 1, wide);
        assert(line_spans(styled + rest) =~= here + line_spans(rest));
        lemma_chained_add(b, here, line_spans(rest), start, close, b.len() as int);
    }
}

/// Lines that follow each other without a gap lie in the text and start and end
/// at boundaries.
pub proof fn lemma_chained_lines(b: Seq<u8>, lines: Seq<Span>, start: int, end: int)
    requires
        chained(b, lines, start, end),
        boundary(b, end),
        0 <= start,
    ensures
        start <= end,
        lines_forward(lines),
        forall|i: int|
            #![trigger lines[i]]
            0 <= i < lines.len() ==> boundary(b, lines[i].start) && boundary(b, lines[i].end)
                && start <= lines[i].start <= lines[i].end <= end,
    decreases lines.len(),
{
    if lines.len() > 0 {
        let d = lines.drop_last();
        lemma_chained_lines(b, d, start, lines.last().start);
        assert forall|i: int| #![trigger lines[i]] 0 <= i < lines.len() implies boundary(
            b,
            lines[i].start,
        ) && boundary(b, lines[i].end) && start <= lines[i].start <= lines[i].end <= end by {
            if i < d.len() {
                assert(lines[i] == d[i]);
            }
        }
    }
}

/// The styled lines that three parallel lists describe.
pub open spec fn styled(lines: Seq<Range<usize>>, comment: Seq<bool>) -> Seq<StyledLine> {
    Seq::new(lines.len(), |i: int| StyledLine { line: span(lines[i]), comment: comment[i] })
}

/// Wraps `text` paragraph by paragraph. Every visual line includes the line
/// feed that ends it; an empty paragraph is an empty line. Returns the lines
/// and, for each, whether it is drawn as a heading and whether its paragraph is
/// a comment (told only where `enable_comment_coloring` is set). `too_wide(a,
/// b)` tells whether `text[a..b]` is wider than the line in the font at hand.
pub fn wrap_text_styled<F: Fn(usize, usize) -> bool>(
    text: &str,
    too_wide: &F,
    force_heading: bool,
    enable_comment_coloring: bool,
) -> (r: (Vec<Range<usize>>, Vec<bool>, Vec<bool>))
    requires
        decided(*too_wide),
    ensures
        r.1@.len() == r.0@.len(),
        r.2@.len() == r.0@.len(),
        forall|i: int| 0 <= i < r.1@.len() ==> r.1@[i] == force_heading,
        utf8(text@).len() == 0 ==> r.0@.len() == 0,
        utf8(text@).len() > 0 ==> spans(r.0@) == line_spans(
            wrapped_text(utf8(text@), 0, measure(*too_wide)),
        ),
        utf8(text@).len() > 0 && enable_comment_coloring ==> styled(r.0@, r.2@) == wrapped_text(
            utf8(text@),
            0,
            measure(*too_wide),
        ),
        !enable_comment_coloring ==> forall|i: int| 0 <= i < r.2@.len() ==> !r.2@[i],
{
    let ghost b = utf8(text@);
    let ghost wide = measure(*too_wide);
    let mut lines: Vec<Range<usize>> = Vec::new();
    let mut is_heading: Vec<bool> = Vec::new();
    let mut comments: Vec<bool> = Vec::new();
    let n: usize = text::len(text);
    if n == 0 {
        return (lines, is_heading, comments);
    }
    let ghost all = wrapped_text(b, 0, wide);
    let mut start: usize = 0;
    let mut more: bool = true;
    proof {
        lemma_utf8_valid(text@);
        lemma_boundary_ends(b);
        assert(line_spans(all) =~= spans(lines@) + line_spans(wrapped_text(b, 0, wide)));
        assert(all =~= styled(lines@, comments@) + wrapped_text(b, 0, wide));
    }
    while more
        invariant
            b == utf8(text@),
            valid_utf8(b),
            wide == measure(*too_wide),
            decided(*too_wide),
            n == b.len(),
            start <= n,
            boundary(b, start as int),
            is_heading@.len() == lines@.len(),
            comments@.len() == lines@.len(),
            forall|i: int| 0 <= i < is_heading@.len() ==> is_heading@[i] == force_heading,
            !enable_comment_coloring ==> forall|i: int|
                0 <= i < comments@.len() ==> !comments@[i],
            more ==> line_spans(all) == spans(lines@) + line_spans(
                wrapped_text(b, start as int, wide),
            ),
            !more ==> line_spans(all) == spans(lines@),
            enable_comment_coloring && more ==> all == styled(lines@, comments@) + wrapped_text(
                b,
                start as int,
                wide,
            ),
            enable_comment_coloring && !more ==> all == styled(lines@, comments@),
        decreases
            n - start,
            if more {
                1int
            } else {
                0int
            },
    {
        let ghost lines0 = lines@;
        let ghost comments0 = comments@;
        proof {
            lemma_first_byte(b, 10, start as int);
            lemma_boundary_ends(b);
            if first_byte(b, 10, start as int) < n {
                lemma_after_ascii(b, first_byte(b, 10, start as int));
            }
            wrapped_paragraph_covers(b, start as int, first_byte(b, 10, start as int), wide);
        }
        let para_end: usize = text::find_byte(text, 10, start);
        let para_is_comment: bool = enable_comment_coloring && paragraph_is_comment(
            text,
            start,
            para_end,
        );
        wrap_paragraph_into(text, start, para_end, too_wide, &mut lines);
        let consumed_to: usize = if para_end < n {
            para_end + 1
        } else {
            n
        };
        let ghost para = wrapped_paragraph(b, start as int, para_end as int, wide);
        assert(spans(lines@).len() == spans(lines0).len() + para.len());
        let last: usize = lines.len() - 1;
        assert(spans(lines@)[last as int] == para.last());
        let last_start: usize = lines[last].start;
        let ghost wrapped = lines@;
        lines.set(last, last_start..consumed_to);
        let ghost here = paragraph_lines(
            b,
            start as int,
            para_end as int,
            consumed_to as int,
            wide,
        );
        assert forall|i: int| 0 <= i < lines@.len() implies spans(lines@)[i] == (spans(lines0)
            + here)[i] by {
            assert(spans(wrapped)[i] == (spans(lines0) + para)[i]);
        }
        assert(spans(lines@) =~= spans(lines0) + here);
        while comments.len() < lines.len()
            invariant
                comments0.len() <= comments@.len() <= lines@.len(),
                is_heading@.len() == comments@.len(),
                forall|i: int| 0 <= i < is_heading@.len() ==> is_heading@[i] == force_heading,
                forall|i: int| 0 <= i < comments0.len() ==> comments@[i] == comments0[i],
                forall|i: int|
                    comments0.len() <= i < comments@.len() ==> comments@[i] == para_is_comment,
            decreases lines@.len() - comments@.len(),
        {
            is_heading.push(force_heading);
            comments.push(para_is_comment);
        }
        proof {
            if !enable_comment_coloring {
                assert forall|i: int| 0 <= i < comments@.len() implies !comments@[i] by {
                    if i < comments0.len() {
                        assert(!comments0[i]);
                    }
                }
            }
            let comment = is_comment(b, start as int, para_end as int);
            let sty = here.map_values(|l: Span| StyledLine { line: l, comment });
            assert(line_spans(sty) =~= here);
            if enable_comment_coloring {
                assert(styled(lines@, comments@) =~= styled(lines0, comments0) + sty) by {
                    assert forall|i: int| 0 <= i < lines@.len() implies styled(
                        lines@,
                        comments@,
                    )[i] == (styled(lines0, comments0) + sty)[i] by {
                        assert(spans(lines@)[i] == (spans(lines0) + here)[i]);
                        if i < lines0.len() {
                            assert(spans(lines0)[i] == span(lines0[i]));
                        }
                    }
                }
            }
            if para_end < n {
                let rest = wrapped_text(b, para_end + 1, wide);
                assert(line_spans(sty + rest) =~= here + line_spans(rest));
                assert(spans(lines0) + (here + line_spans(rest)) =~= spans(lines@) + line_spans(
                    rest,
                ));
                if enable_comment_coloring {
                    assert(styled(lines0, comments0) + (sty + rest) =~= styled(lines@, comments@)
                        + rest);
                }
            }
        }
        if para_end < n {
            start = para_end + 1;
        } else {
            more = false;
        }
    }
    (lines, is_heading, comments)
}

// ---------------------------------------------------------------------------
// Runs of a line
// ---------------------------------------------------------------------------

/// How a run of a line is drawn: as plain text, as an underlined link, or in
/// the dim colour of a committed tag.
#[derive(Clone, Copy, Debug, PartialEq, Eq, Structural)]
pub enum RunStyle {
    Plain,
    Link,
    Tag,
}

/// A part of a line that is drawn in one style.
pub struct Run {
    pub range: Range<usize>,
    pub style: RunStyle,
}

/// The mathematical content of a `Run`.
#[verifier::ext_equal]
pub struct RunModel {
    pub span: Span,
    pub style: RunStyle,
}

impl View for Run {
    type V = RunModel;

    open spec fn view(&self) -> RunModel {
        RunModel { span: span(self.range), style: self.style }
    }
}

/// The first link from `k` on that covers `pos`; the number of links where none
/// does.
pub open spec fn link_covering(links: Seq<Link>, pos: int, k: int) -> int
    decreases links.len() - k,
{
    if k < 0 || k >= links.len() {
        links.len() as int
    } else if links[k].start <= pos < links[k].end {
        k
    } else {
        link_covering(links, pos, k + 1)
    }
}

pub proof fn lemma_link_covering(links: Seq<Link>, pos: int, k: int)
    requires
        0 <= k <= links.len(),
    ensures
        k <= link_covering(links, pos, k) <= links.len(),
        link_covering(links, pos, k) < links.len() ==> links[link_covering(links, pos, k)].start
            <= pos < links[link_covering(links, pos, k)].end,
    decreases links.len() - k,
{
    if k < links.len() && !(links[k].start <= pos < links[k].end) {
        lemma_link_covering(links, pos, k + 1);
    }
}

/// The least start of a link behind `pos` and in front of `end`; `end` where
/// there is none. The links from `k` on are looked at.
pub open spec fn next_link_start(links: Seq<Link>, pos: int, end: int, k: int) -> int
    decreases links.len() - k,
{
    if k < 0 || k >= links.len() {
        end
    } else {
        let rest = next_link_start(links, pos, end, k + 1);
        if pos < links[k].start < end && links[k].start < rest {
            links[k].start
        } else {
            rest
        }
    }
}

proof fn lemma_next_link_start(links: Seq<Link>, pos: int, end: int, k: int)
    requires
        pos < end,
        0 <= k <= links.len(),
    ensures
        pos < next_link_start(links, pos, end, k) <= end,
    decreases links.len() - k,
{
    if k < links.len() {
        lemma_next_link_start(links, pos, end, k + 1);
    }
}

/// The run of the line that starts at `pos`.
pub open spec fn run_at(links: Seq<Link>, pos: int, end: int) -> RunModel {
    let k = link_covering(links, pos, 0);
    if k < links.len() {
        RunModel {
            span: Span {
                start: pos,
                end: if links[k].end < end {
                    links[k].end
                } else {
                    end
                },
            },
            style: if is_tag_address(links[k].url) {
                RunStyle::Tag
            } else {
                RunStyle::Link
            },
        }
    } else {
        RunModel {
            span: Span { start: pos, end: next_link_start(links, pos, end, 0) },
            style: RunStyle::Plain,
        }
    }
}

/// The runs of the line from `pos` to `end`.
pub open spec fn runs_from(links: Seq<Link>, pos: int, end: int) -> Seq<RunModel>
    decreases end - pos,
{
    let r = run_at(links, pos, end);
    if pos >= end || r.span.end <= pos || r.span.end > end {
        Seq::empty()
    } else {
        seq![r] + runs_from(links, r.span.end, end)
    }
}

proof fn lemma_run_at(links: Seq<Link>, pos: int, end: int)
    requires
        pos < end,
    ensures
        pos < run_at(links, pos, end).span.end <= end,
{
    lemma_link_covering(links, pos, 0);
    lemma_next_link_start(links, pos, end, 0);
}

/// `runs`, none of them empty, follow each other without a gap from `pos` to
/// `end`.
pub open spec fn runs_chain(runs: Seq<RunModel>, pos: int, end: int) -> bool
    decreases runs.len(),
{
    if runs.len() == 0 {
        pos == end
    } else {
        &&& runs[0].span.start == pos
        &&& pos < runs[0].span.end <= end
        &&& runs_chain(runs.drop_first(), runs[0].span.end, end)
    }
}

/// The runs of a line, none of them empty, follow each other without a gap from
/// its start to its end.
pub proof fn runs_cover_the_line(links: Seq<Link>, pos: int, end: int)
    requires
        pos <= end,
    ensures
        runs_chain(runs_from(links, pos, end), pos, end),
    decreases end - pos,
{
    if pos < end {
        lemma_run_at(links, pos, end);
        let r = run_at(links, pos, end);
        runs_cover_the_line(links, r.span.end, end);
        let rest = runs_from(links, r.span.end, end);
        assert(runs_from(links, pos, end).drop_first() =~= rest);
    }
}

/// Cuts the visible part of a line into the runs it is drawn in: where the
/// first link that covers a byte starts or ends, the style changes.
pub fn line_runs(line: &Range<usize>, links: &[LinkSpan]) -> (runs: Vec<Run>)
    ensures
        views(runs@) == runs_from(views(links@), line.start as int, line.end as int),
{
    let ghost ls = views(links@);
    let end: usize = line.end;
    let mut runs: Vec<Run> = Vec::new();
    let mut pos: usize = line.start;
    assert(views(runs@) + runs_from(ls, pos as int, end as int) =~= runs_from(
        ls,
        pos as int,
        end as int,
    ));
    while pos < end
        invariant
            ls == views(links@),
            end == line.end,
            line.start <= pos,
            runs_from(ls, line.start as int, end as int) == views(runs@) + runs_from(
                ls,
                pos as int,
                end as int,
            ),
            pos <= end || pos == line.start,
        decreases end - pos,
    {
        proof {
            lemma_run_at(ls, pos as int, end as int);
        }
        let mut k: usize = 0;
        while k < links.len() && !(pos >= links[k].range.start && pos < links[k].range.end)
            invariant
                ls == views(links@),
                k <= links.len(),
                link_covering(ls, pos as int, 0) == link_covering(ls, pos as int, k as int),
            decreases links.len() - k,
        {
            assert(ls[k as int] == links@[k as int]@);
            k += 1;
        }
        let (run_end, style) = if k < links.len() {
            assert(ls[k as int] == links@[k as int]@);
            let e: usize = if links[k].range.end < end {
                links[k].range.end
            } else {
                end
            };
            if is_kept_tag_url(&links[k].url) {
                (e, RunStyle::Tag)
            } else {
                (e, RunStyle::Link)
            }
        } else {
            let mut e: usize = end;
            let mut j: usize = links.len();
            while j > 0
                invariant
                    ls == views(links@),
                    j <= links.len(),
                    e == next_link_start(ls, pos as int, end as int, j as int),
                decreases j,
            {
                j -= 1;
                assert(ls[j as int] == links@[j as int]@);
                let s: usize = links[j].range.start;
                if s > pos && s < end && s < e {
                    e = s;
                }
            }
            (e, RunStyle::Plain)
        };
        let ghost prev = runs@;
        runs.push(Run { range: pos..run_end, style });
        proof {
            let r = run_at(ls, pos as int, end as int);
            assert(views(runs@) =~= views(prev).push(r));
            assert(views(prev) + runs_from(ls, pos as int, end as int) =~= views(runs@) + runs_from(
                ls,
                run_end as int,
                end as int,
            ));
        }
        pos = run_end;
    }
    assert(views(runs@) + runs_from(ls, pos as int, end as int) =~= views(runs@));
    runs
}

} // verus!
