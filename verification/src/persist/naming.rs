//! The tags of stored cells, and the names of the people that they are about.
use std::ops::Range;
use vstd::prelude::*;
use vstd::utf8::*;

use crate::text;
use crate::cell::common::{is_kept_tag_url, is_tag_address, tag_name_from_url, tag_of_address, Link};
use crate::cell::model::{any_tag, linkable, with_name};
use crate::cell::textbox::{bytes_of, optional_bytes, push_distinct};
use crate::cell::wrap::{
    first_solid, lemma_inline_tags, lemma_trailing_tags, lemma_trimmed_end, parse_heading_tags,
    parse_inline_tags, solid_from, span, spans, trailing_tags, trim_end_at, trimmed_end, Span,
};
use crate::persist::cells::{body_sits, grid_sits, NAMED, persisted_sits, tags_sit};
use crate::persist::records::{
    rows_record, text_record, BlockModel, BodyModel, CellBody, EntryRecord, LinkRecord,
    PersistedCell, PersistedModel, TableEntryRecord, TagRecord, TextRecord,
};
use crate::persist::rows::tags_spelled;
use crate::text::{
    boundary, first_byte, lemma_after_ascii, lemma_ascii_is_boundary, lemma_boundary_ends,
    lemma_first_byte, lemma_utf8_valid, lower_case, utf8, views,
};
use crate::words::{split_words, word_views, words_of};

verus! {

// ---------------------------------------------------------------------------
// Tags of a stored text
// ---------------------------------------------------------------------------

/// The tag that a stored link marks: more than one byte of the text lies under it,
/// all of them in the text, and it has a name.
pub open spec fn link_name(text: Seq<u8>, l: Link) -> Option<Seq<u8>> {
    if l.end > l.start + 1 && l.end <= text.len() && is_tag_address(l.url) && tag_of_address(
        l.url,
    ).len() > 0 {
        Some(tag_of_address(l.url))
    } else {
        None
    }
}

/// `names` and the tags that stored links mark, each once, in order.
pub open spec fn link_names(names: Seq<Seq<u8>>, text: Seq<u8>, links: Seq<Link>) -> Seq<Seq<u8>>
    decreases links.len(),
{
    if links.len() == 0 {
        names
    } else {
        let before = link_names(names, text, links.drop_last());
        match link_name(text, links.last()) {
            Some(name) => with_name(before, name),
            None => before,
        }
    }
}

/// The tag under a span of the text: what follows the `#` that the span starts with.
pub open spec fn span_name(text: Seq<u8>, s: Span) -> Option<Seq<u8>> {
    if s.end > s.start + 1 && s.end <= text.len() && text[s.start] == 35 {
        Some(text.subrange(s.start + 1, s.end))
    } else {
        None
    }
}

/// `names` and the tags under spans, each once, in order.
pub open spec fn span_names(names: Seq<Seq<u8>>, text: Seq<u8>, spans: Seq<Span>) -> Seq<Seq<u8>>
    decreases spans.len(),
{
    if spans.len() == 0 {
        names
    } else {
        let before = span_names(names, text, spans.drop_last());
        match span_name(text, spans.last()) {
            Some(name) => with_name(before, name),
            None => before,
        }
    }
}

/// `names` and the tags of a stored text.
pub open spec fn text_names(names: Seq<Seq<u8>>, r: TextRecord) -> Seq<Seq<u8>> {
    span_names(link_names(names, r.text, r.links), r.text, r.tags)
}

/// `names` and the tags of a stored text of old: where it has none, neither as links
/// nor on their own, those that it spells.
pub open spec fn old_text_names(names: Seq<Seq<u8>>, r: TextRecord, heading: bool) -> Seq<Seq<u8>> {
    let linked = link_names(names, r.text, r.links);
    if r.tags.len() > 0 {
        span_names(linked, r.text, r.tags)
    } else if any_tag(r.links) {
        linked
    } else {
        span_names(linked, r.text, tags_spelled(r, heading))
    }
}

/// `names` and the tags of a stored text, as they are read today or, where `old`, as
/// they were of old.
pub open spec fn names_behind(
    names: Seq<Seq<u8>>,
    r: TextRecord,
    heading: bool,
    old: bool,
) -> Seq<Seq<u8>> {
    if old {
        old_text_names(names, r, heading)
    } else {
        text_names(names, r)
    }
}

/// `names` and the tags of the first `n` stored bullets.
pub open spec fn blocks_names(
    names: Seq<Seq<u8>>,
    blocks: Seq<BlockModel>,
    n: int,
    old: bool,
) -> Seq<Seq<u8>>
    decreases n,
{
    if n <= 0 {
        names
    } else {
        names_behind(blocks_names(names, blocks, n - 1, old), blocks[n - 1].said, false, old)
    }
}

/// `names` and the tags of the first `n` stored entries of a row.
pub open spec fn row_names(names: Seq<Seq<u8>>, row: Seq<EntryRecord>, n: int, old: bool) -> Seq<
    Seq<u8>,
>
    decreases n,
{
    if n <= 0 {
        names
    } else {
        names_behind(row_names(names, row, n - 1, old), row[n - 1].said, false, old)
    }
}

/// `names` and the tags of the first `n` stored rows.
pub open spec fn rows_names(
    names: Seq<Seq<u8>>,
    rows: Seq<Seq<EntryRecord>>,
    n: int,
    old: bool,
) -> Seq<Seq<u8>>
    decreases n,
{
    if n <= 0 {
        names
    } else {
        row_names(rows_names(names, rows, n - 1, old), rows[n - 1], rows[n - 1].len() as int, old)
    }
}

/// `names` and the tags of a stored body. Calculators and references have none.
pub open spec fn body_names(names: Seq<Seq<u8>>, b: BodyModel, old: bool) -> Seq<Seq<u8>> {
    match b {
        BodyModel::Plain(r) => names_behind(names, r, false, old),
        BodyModel::Outline(blocks, _) => blocks_names(names, blocks, blocks.len() as int, old),
        BodyModel::Table(_, _, cells) => rows_names(names, cells, cells.len() as int, old),
        _ => names,
    }
}

/// The tags of a stored cell, each once: those of the title, those of the body.
pub open spec fn persisted_names(p: PersistedModel, old: bool) -> Seq<Seq<u8>> {
    let titled = match p.title {
        Some(t) => names_behind(Seq::empty(), t, true, old),
        None => Seq::empty(),
    };
    body_names(titled, p.body, old)
}

fn push_link_names(text: &String, links: &Vec<LinkRecord>, names: &mut Vec<String>)
    ensures
        bytes_of(final(names)@) == link_names(
            bytes_of(old(names)@),
            utf8(text@),
            views(links@),
        ),
{
    let ghost b = utf8(text@);
    let ghost ls = views(links@);
    let ghost start = bytes_of(names@);
    let n: usize = text::len(text.as_str());
    let mut i: usize = 0;
    assert(ls.subrange(0, 0) =~= Seq::<Link>::empty());
    while i < links.len()
        invariant
            i <= links.len(),
            b == utf8(text@),
            n == b.len(),
            ls == views(links@),
            bytes_of(names@) == link_names(start, b, ls.subrange(0, i as int)),
        decreases links.len() - i,
    {
        proof {
            let upto = ls.subrange(0, i + 1);
            assert(upto.drop_last() =~= ls.subrange(0, i as int));
            assert(upto.last() == links@[i as int]@);
        }
        let l = &links[i];
        if l.end > l.start && l.end - l.start > 1 && l.end <= n {
            if let Some(name) = tag_name_from_url(l.url.as_str()) {
                if text::len(name) > 0 {
                    push_distinct(names, name);
                }
            }
        }
        i += 1;
    }
    assert(ls.subrange(0, i as int) =~= ls);
}

fn push_span_name(text: &String, start: usize, end: usize, names: &mut Vec<String>)
    requires
        linkable(utf8(text@), start as int, end as int) && start + NAMED <= end ==> boundary(utf8(text@), start as int)
            && boundary(utf8(text@), end as int),
    ensures
        bytes_of(final(names)@) == (match span_name(
            utf8(text@),
            Span { start: start as int, end: end as int },
        ) {
            Some(name) => with_name(bytes_of(old(names)@), name),
            None => bytes_of(old(names)@),
        }),
{
    let s = text.as_str();
    let n: usize = text::len(s);
    if end > start && end - start > 1 && end <= n {
        if text::byte_at(s, start) == 35 {
            proof {
                lemma_utf8_valid(s@);
                lemma_after_ascii(utf8(s@), start as int);
            }
            push_distinct(names, text::slice(s, start + 1, end));
        }
    }
}

fn push_tag_names(text: &String, tags: &Vec<TagRecord>, names: &mut Vec<String>)
    requires
        tags_sit(
            TextRecord { text: utf8(text@), links: Seq::empty(), tags: views(tags@) },
            NAMED as int,
        ),
    ensures
        bytes_of(final(names)@) == span_names(bytes_of(old(names)@), utf8(text@), views(tags@)),
{
    let ghost b = utf8(text@);
    let ghost ts = views(tags@);
    let ghost r = TextRecord { text: b, links: Seq::empty(), tags: ts };
    let ghost start = bytes_of(names@);
    let mut i: usize = 0;
    assert(ts.subrange(0, 0) =~= Seq::<Span>::empty());
    while i < tags.len()
        invariant
            i <= tags.len(),
            b == utf8(text@),
            ts == views(tags@),
            r == (TextRecord { text: b, links: Seq::empty(), tags: ts }),
            tags_sit(r, NAMED as int),
            bytes_of(names@) == span_names(start, b, ts.subrange(0, i as int)),
        decreases tags.len() - i,
    {
        proof {
            let upto = ts.subrange(0, i + 1);
            assert(upto.drop_last() =~= ts.subrange(0, i as int));
            assert(upto.last() == tags@[i as int]@);
            assert(r.tags[i as int] == tags@[i as int]@);
        }
        push_span_name(text, tags[i].start, tags[i].end, names);
        i += 1;
    }
    assert(ts.subrange(0, i as int) =~= ts);
}

/// Where the tags that a text spells stand.
pub(crate) fn spelled_tags(text: &String, heading: bool) -> (found: Vec<Range<usize>>)
    ensures
        spans(found@) == tags_spelled(
            TextRecord { text: utf8(text@), links: Seq::empty(), tags: Seq::empty() },
            heading,
        ),
        forall|i: int|
            0 <= i < found@.len() ==> (#[trigger] found@[i]).start < found@[i].end && found@[i].end
                <= utf8(text@).len() && boundary(utf8(text@), found@[i].start as int) && boundary(
                utf8(text@),
                found@[i].end as int,
            ),
{
    let ghost b = utf8(text@);
    let s = text.as_str();
    proof {
        lemma_utf8_valid(text@);
        lemma_boundary_ends(b);
        lemma_first_byte(b, 10, 0);
        lemma_trailing_tags(b, first_byte(b, 10, 0));
        lemma_inline_tags(b, b.len() as int);
    }
    let found = if heading {
        let end: usize = text::find_byte(s, 10, 0);
        parse_heading_tags(s, end)
    } else {
        parse_inline_tags(s)
    };
    proof {
        let all = spans(found@);
        assert forall|i: int| 0 <= i < found@.len() implies (#[trigger] found@[i]).start
            < found@[i].end && found@[i].end <= b.len() && boundary(b, found@[i].start as int)
            && boundary(b, found@[i].end as int) by {
            assert(all[i] == span(found@[i]));
            lemma_ascii_is_boundary(b, found@[i].start as int);
        }
    }
    found
}

fn push_spelled_names(text: &String, heading: bool, names: &mut Vec<String>)
    ensures
        bytes_of(final(names)@) == span_names(
            bytes_of(old(names)@),
            utf8(text@),
            tags_spelled(
                TextRecord { text: utf8(text@), links: Seq::empty(), tags: Seq::empty() },
                heading,
            ),
        ),
{
    let ghost b = utf8(text@);
    let found = spelled_tags(text, heading);
    let ghost ts = spans(found@);
    let ghost start = bytes_of(names@);
    let mut i: usize = 0;
    assert(ts.subrange(0, 0) =~= Seq::<Span>::empty());
    while i < found.len()
        invariant
            i <= found.len(),
            b == utf8(text@),
            ts == spans(found@),
            forall|i: int|
                0 <= i < found@.len() ==> (#[trigger] found@[i]).start < found@[i].end
                    && found@[i].end <= b.len() && boundary(b, found@[i].start as int)
                    && boundary(b, found@[i].end as int),
            bytes_of(names@) == span_names(start, b, ts.subrange(0, i as int)),
        decreases found.len() - i,
    {
        proof {
            let upto = ts.subrange(0, i + 1);
            assert(upto.drop_last() =~= ts.subrange(0, i as int));
            assert(upto.last() == span(found@[i as int]));
        }
        push_span_name(text, found[i].start, found[i].end, names);
        i += 1;
    }
    assert(ts.subrange(0, i as int) =~= ts);
}

fn any_tag_link(links: &Vec<LinkRecord>) -> (r: bool)
    ensures
        r == any_tag(views(links@)),
{
    let ghost ls = views(links@);
    let mut i: usize = 0;
    while i < links.len()
        invariant
            i <= links.len(),
            ls == views(links@),
            forall|k: int| 0 <= k < i ==> !is_tag_address((#[trigger] ls[k]).url),
        decreases links.len() - i,
    {
        assert(ls[i as int] == links@[i as int]@);
        if is_kept_tag_url(links[i].url.as_str()) {
            return true;
        }
        i += 1;
    }
    false
}

fn push_names(
    text: &String,
    links: &Vec<LinkRecord>,
    tags: &Vec<TagRecord>,
    heading: bool,
    old_form: bool,
    names: &mut Vec<String>,
)
    requires
        tags_sit(text_record(*text, *links, *tags), NAMED as int),
    ensures
        bytes_of(final(names)@) == names_behind(
            bytes_of(old(names)@),
            text_record(*text, *links, *tags),
            heading,
            old_form,
        ),
{
    push_link_names(text, links, names);
    let ghost r = TextRecord { text: utf8(text@), links: Seq::empty(), tags: views(tags@) };
    proof {
        let all = text_record(*text, *links, *tags);
        assert forall|i: int|
            0 <= i < r.tags.len() && linkable(r.text, (#[trigger] r.tags[i]).start, r.tags[i].end)
                && r.tags[i].start + NAMED <= r.tags[i].end implies boundary(r.text, r.tags[i].start) && boundary(r.text, r.tags[i].end) by {
            assert(all.tags[i] == r.tags[i]);
        }
        assert(tags_sit(r, NAMED as int));
    }
    if !old_form || tags.len() > 0 {
        push_tag_names(text, tags, names);
    } else if !any_tag_link(links) {
        push_spelled_names(text, heading, names);
    }
}

fn push_body_names(body: &CellBody, old_form: bool, names: &mut Vec<String>)
    requires
        body_sits(body@, NAMED as int),
    ensures
        bytes_of(final(names)@) == body_names(bytes_of(old(names)@), body@, old_form),
{
    let ghost start = bytes_of(names@);
    match body {
        CellBody::Plain { text, links, tags } => {
            push_names(text, links, tags, false, old_form, names);
        },
        CellBody::Outline { blocks, .. } => {
            let ghost bs = views(blocks@);
            let mut i: usize = 0;
            while i < blocks.len()
                invariant
                    i <= blocks.len(),
                    bs == views(blocks@),
                    forall|k: int| 0 <= k < bs.len() ==> tags_sit((#[trigger] bs[k]).said, NAMED as int),
                    bytes_of(names@) == blocks_names(start, bs, i as int, old_form),
                decreases blocks.len() - i,
            {
                let b = &blocks[i];
                assert(bs[i as int] == b@);
                push_names(&b.text, &b.links, &b.tags, false, old_form, names);
                i += 1;
            }
        },
        CellBody::Table { cells, .. } => {
            push_rows_names(cells, old_form, names);
        },
        _ => {},
    }
}

fn push_rows_names(rows: &Vec<Vec<TableEntryRecord>>, old_form: bool, names: &mut Vec<String>)
    requires
        grid_sits(rows_record(rows@), NAMED as int),
    ensures
        bytes_of(final(names)@) == rows_names(
            bytes_of(old(names)@),
            rows_record(rows@),
            rows@.len() as int,
            old_form,
        ),
{
    let ghost start = bytes_of(names@);
    let ghost all = rows_record(rows@);
    let mut i: usize = 0;
    while i < rows.len()
        invariant
            i <= rows.len(),
            all == rows_record(rows@),
            grid_sits(all, NAMED as int),
            bytes_of(names@) == rows_names(start, all, i as int, old_form),
        decreases rows.len() - i,
    {
        let row = &rows[i];
        let ghost before = bytes_of(names@);
        let mut j: usize = 0;
        assert(all[i as int] == views(row@));
        while j < row.len()
            invariant
                i < rows.len(),
                j <= row.len(),
                all == rows_record(rows@),
                all[i as int] == views(row@),
                grid_sits(all, NAMED as int),
                bytes_of(names@) == row_names(before, all[i as int], j as int, old_form),
            decreases row.len() - j,
        {
            let e = &row[j];
            assert(all[i as int][j as int] == e@);
            push_names(&e.text, &e.links, &e.tags, false, old_form, names);
            j += 1;
        }
        i += 1;
    }
}

fn names_of_persisted(p: &PersistedCell, old_form: bool) -> (names: Vec<String>)
    requires
        persisted_sits(p@, NAMED as int),
    ensures
        bytes_of(names@) == persisted_names(p@, old_form),
{
    let mut names: Vec<String> = Vec::new();
    assert(bytes_of(names@) =~= Seq::empty());
    if let Some(t) = &p.title {
        push_names(&t.text, &t.links, &t.tags, true, old_form, &mut names);
    }
    push_body_names(&p.body, old_form, &mut names);
    names
}

/// The tags of a stored cell, each once, in order: only those that are links, or
/// stored on their own. A tag that is spelled and was never committed is none.
pub fn tag_names_from_persisted(p: &PersistedCell) -> (names: Vec<String>)
    requires
        persisted_sits(p@, NAMED as int),
    ensures
        bytes_of(names@) == persisted_names(p@, false),
{
    names_of_persisted(p, false)
}

/// The tags of a stored cell of old, each once, in order: where a text has none, those
/// that it spells.
pub fn tag_names_from_persisted_legacy(p: &PersistedCell) -> (names: Vec<String>)
    requires
        persisted_sits(p@, NAMED as int),
    ensures
        bytes_of(names@) == persisted_names(p@, true),
{
    names_of_persisted(p, true)
}

// ---------------------------------------------------------------------------
// Tags of headings
// ---------------------------------------------------------------------------

/// The text starts with a heading.
pub open spec fn heads(b: Seq<u8>) -> bool {
    b.len() >= 2 && b[0] == 35 && b[1] == 32
}

/// Whether the text starts with a heading.
pub(crate) fn is_heading(text: &String) -> (r: bool)
    ensures
        r == heads(utf8(text@)),
        r ==> boundary(utf8(text@), 2),
{
    let s = text.as_str();
    let r: bool = text::len(s) >= 2 && text::byte_at(s, 0) == 35 && text::byte_at(s, 1) == 32;
    proof {
        lemma_utf8_valid(text@);
        if r {
            lemma_ascii_is_boundary(utf8(s@), 1);
            lemma_after_ascii(utf8(s@), 1);
        }
    }
    r
}

/// `names` and the tags that close a text's first line, where that is a heading.
pub open spec fn heading_names(names: Seq<Seq<u8>>, b: Seq<u8>) -> Seq<Seq<u8>> {
    if heads(b) {
        span_names(names, b, trailing_tags(b, first_byte(b, 10, 0)))
    } else {
        names
    }
}

/// `names` and the tags that close the headings of the first `n` stored bullets.
pub open spec fn heading_blocks(names: Seq<Seq<u8>>, blocks: Seq<BlockModel>, n: int) -> Seq<
    Seq<u8>,
>
    decreases n,
{
    if n <= 0 {
        names
    } else {
        heading_names(heading_blocks(names, blocks, n - 1), blocks[n - 1].said.text)
    }
}

/// The tags that close the headings of a stored body; of a table, that of its first
/// entry.
pub open spec fn headings_names(b: BodyModel) -> Seq<Seq<u8>> {
    let none = Seq::<Seq<u8>>::empty();
    match b {
        BodyModel::Plain(r) => heading_names(none, r.text),
        BodyModel::Outline(blocks, _) => heading_blocks(none, blocks, blocks.len() as int),
        BodyModel::PopPop(text, _) => heading_names(none, text),
        BodyModel::Table(_, _, cells) => if cells.len() > 0 && cells[0].len() > 0 {
            heading_names(none, cells[0][0].said.text)
        } else {
            none
        },
        BodyModel::Reference(_) => none,
    }
}

fn push_heading_names(text: &String, names: &mut Vec<String>)
    ensures
        bytes_of(final(names)@) == heading_names(bytes_of(old(names)@), utf8(text@)),
{
    if is_heading(text) {
        push_spelled_names(text, true, names);
    }
}

/// The tags that close the headings of a stored body, each once, in order.
pub fn tag_names_from_body(body: &CellBody) -> (names: Vec<String>)
    ensures
        bytes_of(names@) == headings_names(body@),
{
    let mut names: Vec<String> = Vec::new();
    assert(bytes_of(names@) =~= Seq::empty());
    match body {
        CellBody::Plain { text, .. } => {
            push_heading_names(text, &mut names);
        },
        CellBody::Outline { blocks, .. } => {
            let ghost bs = views(blocks@);
            let mut i: usize = 0;
            while i < blocks.len()
                invariant
                    i <= blocks.len(),
                    bs == views(blocks@),
                    bytes_of(names@) == heading_blocks(Seq::empty(), bs, i as int),
                decreases blocks.len() - i,
            {
                assert(bs[i as int] == blocks@[i as int]@);
                push_heading_names(&blocks[i].text, &mut names);
                i += 1;
            }
        },
        CellBody::PopPop { text, .. } => {
            push_heading_names(text, &mut names);
        },
        CellBody::Table { cells, .. } => {
            if cells.len() > 0 && cells[0].len() > 0 {
                assert(rows_record(cells@)[0] == views(cells@[0]@));
                assert(rows_record(cells@)[0][0] == cells@[0]@[0]@);
                push_heading_names(&cells[0][0].text, &mut names);
            } else {
                assert(cells@.len() > 0 ==> rows_record(cells@)[0] == views(cells@[0]@));
            }
        },
        CellBody::Reference { .. } => {},
    }
    names
}

// ---------------------------------------------------------------------------
// People
// ---------------------------------------------------------------------------

/// The name that a title gives: its first line without the words starting with `#`
/// that close it, and without the white space around what is left. None where nothing
/// is left.
pub open spec fn display_name(b: Seq<u8>) -> Option<Seq<u8>> {
    let line = first_byte(b, 10, 0);
    let tags = trailing_tags(b, line);
    let end = trimmed_end(
        b,
        if tags.len() > 0 {
            tags[0].start
        } else {
            line
        },
    );
    if end == 0 {
        None
    } else {
        Some(b.subrange(first_solid(b, 0, end), end))
    }
}

/// The name that a title gives.
pub fn extract_display_name(title_text: &str) -> (name: Option<String>)
    ensures
        optional_bytes(name) == display_name(utf8(title_text@)),
{
    let ghost b = utf8(title_text@);
    let line: usize = text::find_byte(title_text, 10, 0);
    proof {
        lemma_utf8_valid(title_text@);
        lemma_boundary_ends(b);
        lemma_first_byte(b, 10, 0);
        lemma_trailing_tags(b, line as int);
    }
    let tags = parse_heading_tags(title_text, line);
    let ghost ts = spans(tags@);
    let from: usize = if tags.len() > 0 {
        assert(ts[0] == span(tags@[0]));
        proof {
            lemma_ascii_is_boundary(b, tags@[0].start as int);
        }
        tags[0].start
    } else {
        line
    };
    let end: usize = trim_end_at(title_text, from);
    proof {
        lemma_trimmed_end(b, from as int);
    }
    if end == 0 {
        None
    } else {
        let start: usize = solid_from(title_text, 0, end);
        Some(text::copy(text::slice(title_text, start, end)))
    }
}

/// Words in lower case, put together with underscores.
pub open spec fn underscored(ws: Seq<Seq<u8>>) -> Seq<u8>
    decreases ws.len(),
{
    if ws.len() == 0 {
        Seq::empty()
    } else if ws.len() == 1 {
        lower_case(ws[0])
    } else {
        underscored(ws.drop_last()) + seq![95u8] + lower_case(ws.last())
    }
}

/// The alias of a name: its words in lower case, put together with underscores.
pub open spec fn alias_of(name: Seq<u8>) -> Seq<u8> {
    underscored(words_of(name))
}

/// The alias of a name.
pub fn normalize_alias(display_name: &str) -> (alias: String)
    ensures
        utf8(alias@) == alias_of(utf8(display_name@)),
{
    let ghost b = utf8(display_name@);
    let places = split_words(display_name);
    let ghost ws = words_of(b);
    let mut out = String::new();
    proof {
        assert(utf8(out@) =~= Seq::<u8>::empty());
        reveal_strlit("_");
        is_ascii_chars_encode_utf8("_"@);
        assert(utf8("_"@) =~= seq![95u8]);
        assert(ws.subrange(0, 0) =~= Seq::empty());
    }
    let mut i: usize = 0;
    while i < places.len()
        invariant
            i <= places.len(),
            b == utf8(display_name@),
            ws == word_views(b, places@),
            utf8("_"@) == seq![95u8],
            forall|i: int|
                0 <= i < places@.len() ==> (#[trigger] places@[i]).0 < places@[i].1 && places@[i].1
                    <= b.len() && boundary(b, places@[i].0 as int) && boundary(
                    b,
                    places@[i].1 as int,
                ),
            utf8(out@) == underscored(ws.subrange(0, i as int)),
        decreases places.len() - i,
    {
        let ghost upto = ws.subrange(0, i + 1);
        let ghost w = ws[i as int];
        assert(w == b.subrange(places@[i as int].0 as int, places@[i as int].1 as int));
        if i > 0 {
            text::push_str(&mut out, "_");
        }
        let word = text::to_lowercase(text::slice(display_name, places[i].0, places[i].1));
        text::push_str(&mut out, word.as_str());
        proof {
            assert(upto.drop_last() =~= ws.subrange(0, i as int));
            assert(upto.last() == w);
            if i == 0 {
                assert(ws.subrange(0, 0) =~= Seq::empty());
                assert(upto[0] == w);
                assert(utf8(out@) =~= lower_case(w));
            }
        }
        i += 1;
    }
    assert(ws.subrange(0, i as int) =~= ws);
    out
}

} // verus!
