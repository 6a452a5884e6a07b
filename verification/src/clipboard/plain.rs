//! Plain text from and to the clipboard.
use vstd::prelude::*;
use vstd::utf8::*;

use crate::text;
use crate::cell::bullets::{four_spaces, repeated};
use crate::cell::wrap::{lemma_trimmed_end, trim_end_at, trimmed_end, Span};
use crate::clipboard::{target_address, BulletPayload, ClipBullet, KeptPayload, PayloadModel};
use crate::text::{
    boundary, first_byte, lemma_after_ascii, lemma_ascii_is_boundary, lemma_boundary_ends,
    lemma_first_byte, lemma_utf8_valid, utf8, views,
};

verus! {

// ---------------------------------------------------------------------------
// Writing
// ---------------------------------------------------------------------------

/// A bullet on a line of its own, four spaces deep for each level.
pub open spec fn plain_bullet(b: ClipBullet) -> Seq<u8> {
    repeated(four_spaces(), b.depth as int) + b.text
}

/// The first `n` bullets as lines.
pub open spec fn plain_upto(bs: Seq<ClipBullet>, n: int) -> Seq<u8>
    decreases n,
{
    if n <= 0 {
        Seq::empty()
    } else if n == 1 {
        plain_bullet(bs[0])
    } else {
        plain_upto(bs, n - 1) + seq![10u8] + plain_bullet(bs[n - 1])
    }
}

/// What is on the clipboard, as plain text.
pub open spec fn plain_of(p: PayloadModel) -> Seq<u8> {
    match p {
        PayloadModel::Text(text, _) => text,
        PayloadModel::Outline(bs) => plain_upto(bs, bs.len() as int),
        PayloadModel::Reference(target, snippet) => utf8("↗ "@) + snippet + utf8(" ("@)
            + target_address(target) + utf8(")"@),
    }
}

fn push_bullet(out: &mut String, b: &BulletPayload)
    ensures
        utf8(final(out)@) == utf8(old(out)@) + plain_bullet(b@),
{
    let ghost led = utf8(out@);
    let ghost u = four_spaces();
    proof {
        reveal_strlit("    ");
        is_ascii_chars_encode_utf8("    "@);
        assert(utf8("    "@) =~= u);
        assert(led + repeated(u, 0) =~= led);
    }
    let mut k: u32 = 0;
    while k < b.depth
        invariant
            k <= b.depth,
            u == four_spaces(),
            utf8("    "@) == u,
            utf8(out@) == led + repeated(u, k as int),
        decreases b.depth - k,
    {
        text::push_str(out, "    ");
        assert(utf8(out@) =~= led + repeated(u, k + 1));
        k += 1;
    }
    text::push_str(out, b.text.as_str());
    assert(utf8(out@) =~= led + plain_bullet(b@));
}

/// What is on the clipboard, as plain text.
pub fn to_plain_text(p: &KeptPayload) -> (s: String)
    ensures
        utf8(s@) == plain_of(p@),
{
    match p {
        KeptPayload::Text { text, links: _ } => text::copy(text.as_str()),
        KeptPayload::Outline { bullets } => {
            let ghost bs = views(bullets@);
            let mut out = String::new();
            assert(utf8(out@) =~= Seq::<u8>::empty());
            proof {
                reveal_strlit("\n");
                is_ascii_chars_encode_utf8("\n"@);
                assert(utf8("\n"@) =~= seq![10u8]);
            }
            let mut i: usize = 0;
            while i < bullets.len()
                invariant
                    i <= bullets.len(),
                    bs == views(bullets@),
                    utf8("\n"@) == seq![10u8],
                    utf8(out@) == plain_upto(bs, i as int),
                decreases bullets.len() - i,
            {
                assert(bs[i as int] == bullets@[i as int]@);
                if i > 0 {
                    text::push_str(&mut out, "\n");
                }
                push_bullet(&mut out, &bullets[i]);
                assert(utf8(out@) =~= plain_upto(bs, i + 1));
                i += 1;
            }
            out
        },
        KeptPayload::Reference { target, snippet } => {
            let url = target.to_url();
            let mut out = text::copy("↗ ");
            text::push_str(&mut out, snippet.as_str());
            text::push_str(&mut out, " (");
            text::push_str(&mut out, url.as_str());
            text::push_str(&mut out, ")");
            out
        },
    }
}

// ---------------------------------------------------------------------------
// Reading
// ---------------------------------------------------------------------------

/// The lines of a text from `from` on, without the line feeds that end them and a
/// carriage return in front of one.
pub open spec fn text_lines(b: Seq<u8>, from: int) -> Seq<Span>
    decreases b.len() + 1 - from,
{
    if from < 0 || from >= b.len() {
        Seq::empty()
    } else {
        let nl = first_byte(b, 10, from);
        let end = if from < nl < b.len() && b[nl - 1] == 13 {
            nl - 1
        } else {
            nl
        };
        if !(from <= nl <= b.len()) {
            Seq::empty()
        } else {
            seq![Span { start: from, end }] + text_lines(b, nl + 1)
        }
    }
}

/// Where the spaces and tabs from `p` on end.
pub open spec fn indent_end(b: Seq<u8>, p: int, end: int) -> int
    decreases end - p,
{
    if p < end && (b[p] == 32 || b[p] == 9) {
        indent_end(b, p + 1, end)
    } else {
        p
    }
}

/// How wide spaces and tabs are; a tab counts four.
pub open spec fn indent_width(b: Seq<u8>, p: int, end: int) -> int
    decreases end - p,
{
    if p >= end {
        0
    } else {
        indent_width(b, p, end - 1) + if b[end - 1] == 9 {
            4int
        } else {
            1int
        }
    }
}

/// The line starts with four spaces or a tab.
pub open spec fn is_indented(b: Seq<u8>, line: Span) -> bool {
    ||| line.start < line.end && b[line.start] == 9
    ||| line.start + 4 <= line.end && b[line.start] == 32 && b[line.start + 1] == 32
        && b[line.start + 2] == 32 && b[line.start + 3] == 32
}

/// Where a text goes on behind a bullet mark: `- `, `* ` or `• `.
pub open spec fn behind_mark(b: Seq<u8>, p: int, end: int) -> int {
    if p + 2 <= end && (b[p] == 45 || b[p] == 42) && b[p + 1] == 32 {
        p + 2
    } else if p + 4 <= end && b[p] == 226 && b[p + 1] == 128 && b[p + 2] == 162 && b[p + 3] == 32 {
        p + 4
    } else {
        p
    }
}

/// The bullet that a line says: its indent gives the level, and the text stands
/// behind a bullet mark. A blank line says none.
pub open spec fn line_bullet(b: Seq<u8>, line: Span) -> Option<ClipBullet> {
    let p = indent_end(b, line.start, line.end);
    let end = trimmed_end(b, line.end);
    if end <= p {
        None
    } else {
        Some(
            ClipBullet {
                depth: (indent_width(b, line.start, p) / 4) as u32,
                text: b.subrange(behind_mark(b, p, end), end),
                links: Seq::empty(),
            },
        )
    }
}

/// The bullets that the first `n` lines say.
pub open spec fn bullets_upto(b: Seq<u8>, lines: Seq<Span>, n: int) -> Seq<ClipBullet>
    decreases n,
{
    if n <= 0 {
        Seq::empty()
    } else {
        let before = bullets_upto(b, lines, n - 1);
        match line_bullet(b, lines[n - 1]) {
            Some(c) => before.push(c),
            None => before,
        }
    }
}

/// What a plain text is: an outline where it has lines, and one of them is
/// indented; else text.
pub open spec fn plain_payload(b: Seq<u8>) -> PayloadModel {
    let lines = text_lines(b, 0);
    let bullets = bullets_upto(b, lines, lines.len() as int);
    if lines.len() >= 2 && bullets.len() > 0 && exists|i: int|
        0 <= i < lines.len() && is_indented(b, #[trigger] lines[i]) {
        PayloadModel::Outline(bullets)
    } else {
        PayloadModel::Text(b, Seq::empty())
    }
}

/// Lines that lie in the text, between characters.
pub open spec fn lines_lie(b: Seq<u8>, lines: Seq<Span>) -> bool {
    forall|i: int|
        0 <= i < lines.len() ==> {
            let l = #[trigger] lines[i];
            0 <= l.start <= l.end <= b.len() && boundary(b, l.start) && boundary(b, l.end)
        }
}

/// The lines of a text, as offsets.
pub fn split_lines(s: &str) -> (lines: Vec<(usize, usize)>)
    ensures
        line_spans_of(lines@) == text_lines(utf8(s@), 0),
        lines_lie(utf8(s@), line_spans_of(lines@)),
{
    let ghost b = utf8(s@);
    let n: usize = text::len(s);
    let mut out: Vec<(usize, usize)> = Vec::new();
    let mut from: usize = 0;
    proof {
        lemma_utf8_valid(s@);
        lemma_boundary_ends(b);
        assert(line_spans_of(out@) =~= Seq::empty());
        assert(Seq::<Span>::empty() + text_lines(b, 0) =~= text_lines(b, 0));
    }
    while from < n
        invariant
            b == utf8(s@),
            valid_utf8(b),
            n == b.len(),
            from <= n + 1,
            from <= n ==> boundary(b, from as int),
            boundary(b, n as int),
            lines_lie(b, line_spans_of(out@)),
            text_lines(b, 0) == line_spans_of(out@) + text_lines(b, from as int),
        decreases n - from,
    {
        let nl: usize = text::find_byte(s, 10, from);
        proof {
            lemma_first_byte(b, 10, from as int);
        }
        let mut end: usize = nl;
        if from < nl && nl < n {
            if text::byte_at(s, nl - 1) == 13 {
                end = nl - 1;
            }
        }
        proof {
            if nl < n {
                lemma_ascii_is_boundary(b, nl as int);
                lemma_after_ascii(b, nl as int);
            }
            if end < nl {
                lemma_ascii_is_boundary(b, end as int);
            }
        }
        let ghost prev = line_spans_of(out@);
        let ghost line = Span { start: from as int, end: end as int };
        out.push((from, end));
        proof {
            assert(line_spans_of(out@) =~= prev.push(line));
            assert(text_lines(b, from as int) == seq![line] + text_lines(b, nl + 1));
            assert(text_lines(b, 0) =~= line_spans_of(out@) + text_lines(b, nl + 1));
        }
        if nl >= n {
            assert(text_lines(b, nl + 1) =~= Seq::empty());
            assert(text_lines(b, n as int) =~= Seq::empty());
            from = n;
        } else {
            from = nl + 1;
        }
    }
    assert(text_lines(b, from as int) =~= Seq::empty());
    assert(text_lines(b, 0) =~= line_spans_of(out@));
    out
}

/// Pairs of offsets as they are modelled.
pub open spec fn line_spans_of(v: Seq<(usize, usize)>) -> Seq<Span> {
    Seq::new(v.len(), |i: int| Span { start: v[i].0 as int, end: v[i].1 as int })
}

proof fn lemma_indent_width(b: Seq<u8>, p: int, end: int)
    requires
        p <= end,
    ensures
        0 <= indent_width(b, p, end) <= 4 * (end - p),
    decreases end - p,
{
    if p < end {
        lemma_indent_width(b, p, end - 1);
    }
}

fn strip_indent(s: &str, start: usize, end: usize) -> (r: (u32, usize))
    requires
        start <= end <= utf8(s@).len(),
        boundary(utf8(s@), start as int),
        4 * utf8(s@).len() <= u32::MAX,
    ensures
        r.1 == indent_end(utf8(s@), start as int, end as int),
        r.0 == (indent_width(utf8(s@), start as int, r.1 as int) / 4) as u32,
        start <= r.1 <= end,
        boundary(utf8(s@), r.1 as int),
{
    let ghost b = utf8(s@);
    let mut width: u32 = 0;
    let mut p: usize = start;
    let mut more: bool = true;
    proof {
        lemma_utf8_valid(s@);
    }
    while more && p < end
        invariant
            b == utf8(s@),
            valid_utf8(b),
            start <= p <= end,
            end <= b.len(),
            4 * b.len() <= u32::MAX,
            boundary(b, p as int),
            width == indent_width(b, start as int, p as int),
            indent_end(b, start as int, end as int) == indent_end(b, p as int, end as int),
            !more ==> indent_end(b, p as int, end as int) == p,
        decreases
            end - p,
            if more {
                1int
            } else {
                0int
            },
    {
        let x: u8 = text::byte_at(s, p);
        proof {
            lemma_indent_width(b, start as int, p as int);
        }
        if x == 32 {
            proof {
                lemma_after_ascii(b, p as int);
            }
            width += 1;
            p += 1;
        } else if x == 9 {
            proof {
                lemma_after_ascii(b, p as int);
            }
            width += 4;
            p += 1;
        } else {
            more = false;
        }
    }
    (width / 4, p)
}

fn strip_bullet_prefix(s: &str, p: usize, end: usize) -> (q: usize)
    requires
        p <= end <= utf8(s@).len(),
        boundary(utf8(s@), p as int),
    ensures
        q == behind_mark(utf8(s@), p as int, end as int),
        p <= q <= end,
        boundary(utf8(s@), q as int),
{
    let ghost b = utf8(s@);
    proof {
        lemma_utf8_valid(s@);
    }
    if end - p >= 2 {
        let x: u8 = text::byte_at(s, p);
        let y: u8 = text::byte_at(s, p + 1);
        if (x == 45 || x == 42) && y == 32 {
            proof {
                lemma_after_ascii(b, p + 1);
            }
            return p + 2;
        }
    }
    if end - p >= 4 {
        if text::byte_at(s, p) == 226 && text::byte_at(s, p + 1) == 128 && text::byte_at(s, p + 2)
            == 162 && text::byte_at(s, p + 3) == 32 {
            proof {
                lemma_after_ascii(b, p + 3);
            }
            return p + 4;
        }
    }
    p
}

fn read_line(s: &str, start: usize, end: usize) -> (r: Option<BulletPayload>)
    requires
        start <= end <= utf8(s@).len(),
        boundary(utf8(s@), start as int),
        boundary(utf8(s@), end as int),
        4 * utf8(s@).len() <= u32::MAX,
    ensures
        (match r {
            Some(c) => Some(c@),
            None => None,
        }) == line_bullet(utf8(s@), Span { start: start as int, end: end as int }),
{
    let ghost b = utf8(s@);
    proof {
        lemma_utf8_valid(s@);
        lemma_trimmed_end(b, end as int);
    }
    let (depth, p) = strip_indent(s, start, end);
    let e: usize = trim_end_at(s, end);
    if e <= p {
        return None;
    }
    let q: usize = strip_bullet_prefix(s, p, e);
    let r = BulletPayload { depth, text: text::copy(text::slice(s, q, e)), links: Vec::new() };
    assert(views(r.links@) =~= Seq::empty());
    Some(r)
}

fn line_is_indented(s: &str, start: usize, end: usize) -> (r: bool)
    requires
        start <= end <= utf8(s@).len(),
    ensures
        r == is_indented(utf8(s@), Span { start: start as int, end: end as int }),
{
    if start < end && text::byte_at(s, start) == 9 {
        return true;
    }
    end - start >= 4 && text::byte_at(s, start) == 32 && text::byte_at(s, start + 1) == 32
        && text::byte_at(s, start + 2) == 32 && text::byte_at(s, start + 3) == 32
}

/// What a plain text is: an outline where it has lines, and one of them is
/// indented; else text.
pub fn from_plain_text(s: &str) -> (p: KeptPayload)
    requires
        4 * utf8(s@).len() <= u32::MAX,
    ensures
        p@ == plain_payload(utf8(s@)),
{
    let ghost b = utf8(s@);
    let lines = split_lines(s);
    let ghost ls = line_spans_of(lines@);
    let mut bullets: Vec<BulletPayload> = Vec::new();
    assert(views(bullets@) =~= Seq::empty());
    let mut indented: bool = false;
    let mut i: usize = 0;
    while i < lines.len()
        invariant
            i <= lines.len(),
            b == utf8(s@),
            4 * b.len() <= u32::MAX,
            ls == line_spans_of(lines@),
            lines_lie(b, ls),
            views(bullets@) == bullets_upto(b, ls, i as int),
            indented == (exists|k: int| 0 <= k < i && is_indented(b, #[trigger] ls[k])),
        decreases lines.len() - i,
    {
        let (start, end) = lines[i];
        let ghost line = ls[i as int];
        assert(line == Span { start: start as int, end: end as int });
        if line_is_indented(s, start, end) {
            indented = true;
            assert(is_indented(b, ls[i as int]));
        }
        if let Some(c) = read_line(s, start, end) {
            let ghost prev = views(bullets@);
            bullets.push(c);
            assert(views(bullets@) =~= prev.push(c@));
        }
        i += 1;
    }
    if lines.len() >= 2 && indented && bullets.len() > 0 {
        return KeptPayload::Outline { bullets };
    }
    let p = KeptPayload::Text { text: text::copy(s), links: Vec::new() };
    assert(p@ =~= PayloadModel::Text(b, Seq::empty()));
    p
}

} // verus!
