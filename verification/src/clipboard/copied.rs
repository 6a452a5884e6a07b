//! What is read out of plain text, and what of plain text that was written here.
use vstd::prelude::*;
use vstd::utf8::*;

use crate::cell::bullets::{four_spaces, repeated};
use crate::cell::rows::{free_of, lemma_one_part, lemma_part_added, lemma_parted_len, parted};
use crate::cell::wrap::{lemma_prev_boundary, prev_boundary, trimmed_end, white_before, Span};
use crate::clipboard::{ClipBullet, PayloadModel};
use crate::clipboard::pages::{bare, lemma_feed_valid, lemma_prev_in_part};
use crate::clipboard::plain::{
    behind_mark, bullets_upto, indent_end, indent_width, is_indented, line_bullet, plain_bullet,
    plain_of, plain_payload, plain_upto, text_lines,
};
use crate::text::{boundary, char_at, first_byte, lemma_boundary_ends, lemma_first_byte, white};
use crate::words::{lemma_ascii_char, lemma_part};

verus! {

/// What a mark in front of a bullet can be: nothing, or `- `, `* ` or `• `.
pub open spec fn is_mark(mark: Seq<u8>) -> bool {
    ||| mark.len() == 0
    ||| mark == seq![45u8, 32u8]
    ||| mark == seq![42u8, 32u8]
    ||| mark == seq![226u8, 128u8, 162u8, 32u8]
}

/// The text does not start with a mark.
pub open spec fn unmarked(text: Seq<u8>) -> bool {
    &&& !(text.len() >= 2 && (text[0] == 45 || text[0] == 42) && text[1] == 32)
    &&& !(text.len() >= 4 && text[0] == 226 && text[1] == 128 && text[2] == 162 && text[3] == 32)
}

/// The line says the bullet: four spaces for each level, a mark, and the text.
pub open spec fn says_bullet(line: Seq<u8>, mark: Seq<u8>, b: ClipBullet) -> bool {
    &&& is_mark(mark)
    &&& mark.len() == 0 ==> unmarked(b.text)
    &&& bare(b.text)
    &&& b.links.len() == 0
    &&& line == repeated(four_spaces(), b.depth as int) + mark + b.text
}

pub proof fn lemma_spaces(n: int)
    requires
        0 <= n,
    ensures
        repeated(four_spaces(), n).len() == 4 * n,
        forall|i: int| 0 <= i < 4 * n ==> #[trigger] repeated(four_spaces(), n)[i] == 32,
        n > 0 ==> repeated(four_spaces(), n).len() >= 4,
        valid_utf8(repeated(four_spaces(), n)),
    decreases n,
{
    if n > 0 {
        lemma_spaces(n - 1);
        reveal_strlit("    ");
        is_ascii_chars_encode_utf8("    "@);
        encode_utf8_valid_utf8("    "@);
        assert(encode_utf8("    "@) =~= four_spaces());
        valid_utf8_concat(repeated(four_spaces(), n - 1), four_spaces());
        valid_utf8_concat(four_spaces(), repeated(four_spaces(), n - 1));
    } else {
        encode_utf8_valid_utf8(Seq::empty());
        assert(encode_utf8(Seq::empty()) =~= repeated(four_spaces(), 0));
    }
}

proof fn lemma_indent(b: Seq<u8>, from: int, p: int, end: int)
    requires
        0 <= from <= p <= end <= b.len(),
        forall|i: int| from <= i < p ==> #[trigger] b[i] == 32,
        p < end ==> b[p] != 32 && b[p] != 9,
    ensures
        indent_end(b, from, end) == p,
        indent_width(b, from, p) == p - from,
    decreases p - from, end,
{
    if from < p {
        lemma_indent(b, from + 1, p, end);
        lemma_width(b, from, p);
    }
}

proof fn lemma_width(b: Seq<u8>, from: int, p: int)
    requires
        0 <= from <= p <= b.len(),
        forall|i: int| from <= i < p ==> #[trigger] b[i] == 32,
    ensures
        indent_width(b, from, p) == p - from,
    decreases p - from,
{
    if from < p {
        lemma_width(b, from, p - 1);
    }
}

/// A line that says a bullet is read as that bullet.
proof fn lemma_line_read(b: Seq<u8>, line: Span, mark: Seq<u8>, c: ClipBullet)
    requires
        valid_utf8(b),
        0 <= line.start <= line.end <= b.len(),
        says_bullet(b.subrange(line.start, line.end), mark, c),
        line.end < b.len() ==> b[line.end] == 10,
        boundary(b, line.start),
    ensures
        line_bullet(b, line) == Some(c),
{
    let d = c.depth as int;
    let text = c.text;
    let said = b.subrange(line.start, line.end);
    let n = 4 * d;
    let p = line.start + n;
    let q = p + mark.len();
    lemma_spaces(d);
    assert(said.len() == n + mark.len() + text.len());
    assert forall|i: int| line.start <= i < p implies #[trigger] b[i] == 32 by {
        assert(said[i - line.start] == repeated(four_spaces(), d)[i - line.start]);
    }
    assert forall|i: int| 0 <= i < mark.len() implies #[trigger] b[p + i] == mark[i] by {
        assert(said[n + i] == mark[i]);
    }
    assert forall|i: int| 0 <= i < text.len() implies #[trigger] b[q + i] == text[i] by {
        assert(said[n + mark.len() + i] == text[i]);
    }
    let end = line.end;
    let tail = b.subrange(q, end);
    assert forall|i: int| 0 <= i < text.len() implies #[trigger] tail[i] == text[i] by {
        assert(b[q + i] == text[i]);
    }
    assert(tail =~= text);
    lemma_boundary_ends(text);
    assert(b[q + 0] == text[0]);
    assert(boundary(b, q));
    assert(boundary(b, end)) by {
        if end < b.len() {
            lemma_ascii_char(b, end);
        } else {
            lemma_boundary_ends(b);
        }
    }
    lemma_part(b, q, text, 0);
    lemma_prev_in_part(b, q, text, text.len() as int);
    lemma_prev_boundary(text, text.len() as int);
    lemma_part(b, q, text, prev_boundary(text, text.len() as int));
    assert(!white_before(b, end));
    assert(trimmed_end(b, end) == end);
    assert(b[p] != 32 && b[p] != 9) by {
        if mark.len() == 0 {
            if b[q] == 32 || b[q] == 9 {
                lemma_ascii_char(b, q);
                assert(white(char_at(b, q + 0)));
            }
        } else {
            assert(b[p + 0] == mark[0]);
        }
    }
    lemma_indent(b, line.start, p, end);
    assert(behind_mark(b, p, end) == q) by {
        if mark.len() == 0 {
            if text.len() >= 2 {
                assert(b[q + 1] == text[1]);
            }
            if text.len() >= 4 {
                assert(b[q + 2] == text[2]);
                assert(b[q + 3] == text[3]);
            }
        } else {
            assert(b[p + 0] == mark[0] && b[p + 1] == mark[1]);
            if mark.len() == 4 {
                assert(b[p + 2] == mark[2] && b[p + 3] == mark[3]);
            }
        }
    }
    assert((4 * d) / 4 == d);
    assert(c.links =~= Seq::empty());
}

/// The line behind the last line feed.
proof fn lemma_last_line(a: Seq<u8>, c: Seq<u8>, from: int)
    requires
        0 <= from < a.len(),
        a.last() != 10,
        a.last() != 13,
        c.len() > 0,
        free_of(c, 10),
    ensures
        ({
            let x = a + seq![10u8] + c;
            text_lines(x, from) == text_lines(a, from).push(
                Span { start: a.len() as int + 1, end: x.len() as int },
            )
        }),
    decreases a.len() - from,
{
    let x = a + seq![10u8] + c;
    let n = a.len() as int;
    lemma_first_byte(a, 10, from);
    lemma_first_byte(x, 10, from);
    lemma_first_byte(x, 10, n + 1);
    let last = Span { start: n + 1, end: x.len() as int };
    assert forall|i: int| 0 <= i < n implies #[trigger] x[i] == a[i] by {}
    assert(x[n] == 10);
    assert forall|i: int| n < i < x.len() implies #[trigger] x[i] != 10 by {
        assert(x[i] == c[i - n - 1]);
    }
    assert(first_byte(x, 10, n + 1) == x.len());
    assert(text_lines(x, n + 1) =~= seq![last]) by {
        assert(text_lines(x, x.len() as int + 1) =~= Seq::empty());
    }
    let na = first_byte(a, 10, from);
    let nx = first_byte(x, 10, from);
    if na < n {
        assert(x[na] == 10);
        assert(nx == na) by {
            if nx < na {
                assert(a[nx] == 10);
            } else if nx > na {
                assert(x[na] != 10);
            }
        }
        assert(na + 1 < n) by {
            if na + 1 == n {
                assert(a.last() == a[na]);
            }
        }
        lemma_last_line(a, c, na + 1);
        if na > from {
            assert(x[na - 1] == a[na - 1]);
        }
        assert(text_lines(x, from) =~= text_lines(a, from).push(last));
    } else {
        assert(nx == n) by {
            if nx < n {
                assert(a[nx] == 10);
            } else if nx > n {
                assert(x[n] != 10);
            }
        }
        assert(x[n - 1] == a.last());
        assert(text_lines(a, n + 1) =~= Seq::empty());
        assert(text_lines(x, from) =~= text_lines(a, from).push(last));
    }
}

/// `b` is made of a last line and what is in front of it.
proof fn lemma_parted_back(b: Seq<u8>) -> (a: Seq<u8>)
    requires
        parted(b, 10).len() > 1,
    ensures
        b == a + seq![10u8] + parted(b, 10).last(),
        parted(a, 10) == parted(b, 10).drop_last(),
        free_of(parted(b, 10).last(), 10),
    decreases b.len(),
{
    let front = b.drop_last();
    let rest = parted(front, 10);
    lemma_parted_len(front, 10);
    if b.last() == 10 {
        assert(parted(b, 10).drop_last() =~= rest);
        assert(b =~= front + seq![10u8] + parted(b, 10).last());
        front
    } else {
        let a = lemma_parted_back(front);
        let (was, now) = (rest.last(), parted(b, 10).last());
        assert(now == was.push(b.last()));
        assert forall|i: int| 0 <= i < now.len() implies #[trigger] now[i] != 10 by {
            if i < was.len() {
                assert(now[i] == was[i]);
            }
        }
        assert(b =~= front.push(b.last()));
        assert(b =~= a + seq![10u8] + now);
        assert(parted(b, 10).drop_last() =~= rest.drop_last());
        a
    }
}

proof fn lemma_parted_alone(b: Seq<u8>)
    requires
        parted(b, 10).len() == 1,
    ensures
        free_of(b, 10),
        parted(b, 10)[0] == b,
    decreases b.len(),
{
    if b.len() > 0 {
        let front = b.drop_last();
        lemma_parted_len(front, 10);
        lemma_parted_alone(front);
        assert(front.push(b.last()) =~= b);
        assert forall|i: int| 0 <= i < b.len() implies #[trigger] b[i] != 10 by {
            if i < front.len() {
                assert(b[i] == front[i]);
            }
        }
    }
}

/// The lines that say the bullets.
pub open spec fn lines_say(
    lines: Seq<Seq<u8>>,
    marks: Seq<Seq<u8>>,
    bs: Seq<ClipBullet>,
) -> bool {
    &&& lines.len() == bs.len()
    &&& marks.len() == bs.len()
    &&& forall|k: int|
        #![trigger lines[k]]
        0 <= k < lines.len() ==> says_bullet(lines[k], marks[k], bs[k])
}

proof fn lemma_last_byte(line: Seq<u8>, mark: Seq<u8>, c: ClipBullet)
    requires
        says_bullet(line, mark, c),
    ensures
        line.len() > 0,
        line.last() != 10,
        line.last() != 13,
{
    let t = c.text;
    let x = t.last();
    assert(line.last() == x);
    if x == 10 || x == 13 {
        let i = t.len() - 1;
        lemma_ascii_char(t, i);
        assert(boundary(t, i));
        if t.len() > 1 {
            assert(prev_boundary(t, t.len() as int) == i);
        } else {
            assert(prev_boundary(t, t.len() as int) == 0);
        }
    }
}

/// The lines of a text, as `text_lines` finds them, are its parts between line feeds.
proof fn lemma_lines_found(b: Seq<u8>, marks: Seq<Seq<u8>>, bs: Seq<ClipBullet>)
    requires
        lines_say(parted(b, 10), marks, bs),
    ensures
        ({
            let lines = text_lines(b, 0);
            &&& b.len() > 0
            &&& b.last() != 10
            &&& b.last() != 13
            &&& lines.len() == bs.len()
            &&& forall|k: int|
                #![trigger lines[k]]
                0 <= k < lines.len() ==> {
                    &&& 0 <= lines[k].start <= lines[k].end <= b.len()
                    &&& b.subrange(lines[k].start, lines[k].end) == parted(b, 10)[k]
                    &&& lines[k].end < b.len() ==> b[lines[k].end] == 10
                    &&& lines[k].start > 0 ==> b[lines[k].start - 1] == 10
                }
        }),
    decreases b.len(),
{
    let parts = parted(b, 10);
    lemma_parted_len(b, 10);
    if parts.len() == 1 {
        lemma_parted_alone(b);
        assert(parts[0] == b);
        lemma_last_byte(parts[0], marks[0], bs[0]);
        lemma_first_byte(b, 10, 0);
        assert(first_byte(b, 10, 0) == b.len());
        let one = Span { start: 0, end: b.len() as int };
        assert(text_lines(b, b.len() as int + 1) =~= Seq::empty());
        assert(text_lines(b, 0) =~= seq![one]);
        assert(b.subrange(0, b.len() as int) =~= b);
    } else {
        let a = lemma_parted_back(b);
        let c = parts.last();
        let n = parts.len() as int;
        let fewer = parted(a, 10);
        assert(parts[n - 1] == c);
        lemma_last_byte(parts[n - 1], marks[n - 1], bs[n - 1]);
        assert forall|k: int| #![trigger fewer[k]] 0 <= k < fewer.len() implies says_bullet(
            fewer[k],
            marks.drop_last()[k],
            bs.drop_last()[k],
        ) by {
            assert(fewer[k] == parts[k]);
        }
        lemma_lines_found(a, marks.drop_last(), bs.drop_last());
        lemma_last_line(a, c, 0);
        let lines = text_lines(b, 0);
        let before = text_lines(a, 0);
        assert(b.last() == c.last());
        assert forall|k: int| #![trigger lines[k]] 0 <= k < lines.len() implies {
            &&& 0 <= lines[k].start <= lines[k].end <= b.len()
            &&& b.subrange(lines[k].start, lines[k].end) == parted(b, 10)[k]
            &&& lines[k].end < b.len() ==> b[lines[k].end] == 10
            &&& lines[k].start > 0 ==> b[lines[k].start - 1] == 10
        } by {
            if k < n - 1 {
                let l = before[k];
                assert(lines[k] == l);
                assert(b.subrange(l.start, l.end) =~= a.subrange(l.start, l.end));
                assert(fewer[k] == parts[k]);
            } else {
                assert(b.subrange(a.len() as int + 1, b.len() as int) =~= c);
            }
        }
    }
}

proof fn lemma_bullets_read(
    b: Seq<u8>,
    marks: Seq<Seq<u8>>,
    bs: Seq<ClipBullet>,
    n: int,
)
    requires
        valid_utf8(b),
        lines_say(parted(b, 10), marks, bs),
        0 <= n <= bs.len(),
    ensures
        bullets_upto(b, text_lines(b, 0), n) == bs.subrange(0, n),
    decreases n,
{
    lemma_lines_found(b, marks, bs);
    if n > 0 {
        lemma_bullets_read(b, marks, bs, n - 1);
        let l = text_lines(b, 0)[n - 1];
        assert(parted(b, 10)[n - 1] == b.subrange(l.start, l.end));
        assert(boundary(b, l.start)) by {
            if l.start > 0 {
                lemma_ascii_char(b, l.start - 1);
            } else {
                lemma_boundary_ends(b);
            }
        }
        lemma_line_read(b, l, marks[n - 1], bs[n - 1]);
        assert(bs.subrange(0, n) =~= bs.subrange(0, n - 1).push(bs[n - 1]));
    } else {
        assert(bs.subrange(0, 0) =~= Seq::empty());
    }
}

/// Plain text is read as an outline where it has two lines or more and one of them is indented:
/// each line as a bullet, one level deep for each four spaces it starts with, its text that
/// behind the mark, where it has one.
pub proof fn indented_lines_are_read_as_bullets(
    b: Seq<u8>,
    marks: Seq<Seq<u8>>,
    bs: Seq<ClipBullet>,
    i: int,
)
    requires
        valid_utf8(b),
        lines_say(parted(b, 10), marks, bs),
        bs.len() >= 2,
        0 <= i < bs.len(),
        bs[i].depth > 0,
    ensures
        plain_payload(b) == PayloadModel::Outline(bs),
{
    let n = bs.len() as int;
    lemma_lines_found(b, marks, bs);
    lemma_bullets_read(b, marks, bs, n);
    assert(bs.subrange(0, n) =~= bs);
    let l = text_lines(b, 0)[i];
    let line = parted(b, 10)[i];
    lemma_spaces(bs[i].depth as int);
    let lead = repeated(four_spaces(), bs[i].depth as int);
    assert(b.subrange(l.start, l.end) == line);
    assert(says_bullet(line, marks[i], bs[i]));
    assert(line.len() >= 4);
    assert forall|j: int| 0 <= j < 4 implies #[trigger] b[l.start + j] == 32 by {
        assert(line[j] == lead[j]);
        assert(line[j] == b.subrange(l.start, l.end)[j]);
    }
    assert(b[l.start + 0] == 32 && b[l.start + 1] == 32 && b[l.start + 2] == 32 && b[l.start + 3]
        == 32);
    assert(is_indented(b, l));
}

/// Outlines are read back from plain text: an outline of two bullets or more, one of them below
/// another, each with a text on one line, without white space around it, without a mark in
/// front of it and without links, is what is read out of the plain text that it is written as.
pub proof fn outlines_are_read_back_from_plain_text(bs: Seq<ClipBullet>, i: int)
    requires
        bs.len() >= 2,
        0 <= i < bs.len(),
        bs[i].depth > 0,
        forall|k: int|
            #![trigger bs[k]]
            0 <= k < bs.len() ==> bare(bs[k].text) && free_of(bs[k].text, 10) && unmarked(
                bs[k].text,
            ) && bs[k].links.len() == 0,
    ensures
        plain_payload(plain_of(PayloadModel::Outline(bs))) == PayloadModel::Outline(bs),
{
    let n = bs.len() as int;
    let none = Seq::new(bs.len(), |k: int| Seq::<u8>::empty());
    let b = plain_upto(bs, n);
    lemma_written(bs, n);
    let lines = parted(b, 10);
    assert forall|k: int| #![trigger lines[k]] 0 <= k < n implies says_bullet(
        lines[k],
        none[k],
        bs[k],
    ) by {
        assert(lines[k] == plain_bullet(bs[k]));
        assert(lines[k] =~= repeated(four_spaces(), bs[k].depth as int) + none[k] + bs[k].text);
    }
    indented_lines_are_read_as_bullets(b, none, bs, i);
}

proof fn lemma_written(bs: Seq<ClipBullet>, n: int)
    requires
        0 < n <= bs.len(),
        forall|k: int|
            #![trigger bs[k]]
            0 <= k < bs.len() ==> valid_utf8(bs[k].text) && free_of(bs[k].text, 10),
    ensures
        valid_utf8(plain_upto(bs, n)),
        parted(plain_upto(bs, n), 10).len() == n,
        forall|k: int|
            0 <= k < n ==> #[trigger] parted(plain_upto(bs, n), 10)[k] == plain_bullet(bs[k]),
    decreases n,
{
    let c = bs[n - 1];
    let line = plain_bullet(c);
    let lead = repeated(four_spaces(), c.depth as int);
    lemma_spaces(c.depth as int);
    valid_utf8_concat(lead, c.text);
    assert forall|k: int| 0 <= k < line.len() implies #[trigger] line[k] != 10 by {
        if k < lead.len() {
            assert(line[k] == lead[k]);
        } else {
            assert(line[k] == c.text[k - lead.len()]);
        }
    }
    if n == 1 {
        lemma_one_part(line, 10);
    } else {
        let a = plain_upto(bs, n - 1);
        lemma_written(bs, n - 1);
        lemma_part_added(a, 10, line);
        lemma_feed_valid();
        valid_utf8_concat(a, seq![10u8]);
        valid_utf8_concat(a + seq![10u8], line);
        let parts = parted(plain_upto(bs, n), 10);
        assert forall|k: int| 0 <= k < n implies #[trigger] parts[k] == plain_bullet(bs[k]) by {
            if k < n - 1 {
                assert(parts[k] == parted(a, 10)[k]);
            }
        }
    }
}

} // verus!
