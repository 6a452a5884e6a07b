//! Stored cells of old brought up to date: headings become titles, and tags that are
//! spelled become stored ones.
use std::ops::Range;
use vstd::prelude::*;

use crate::text;
use crate::cell::common::Link;
use crate::cell::textbox::optional_bytes;
use crate::cell::wrap::{span, spans, Span};
use crate::clipboard::SerLink;
use crate::ids::{new_id, Uuid};
use crate::json::json_stored;
use crate::persist::naming::{heads, is_heading, spelled_tags};
use crate::persist::records::{
    persisted_json, rows_record, BlockModel, BlockRecord, BodyModel, CellBody, EntryRecord,
    LinkRecord, PersistedCell, PersistedModel, TableEntryRecord, TagRecord, TextRecord,
    TitleRecord,
};
use crate::persist::rows::tags_spelled;
use crate::persist::storing::persisted_read;
use crate::text::{
    first_byte, lemma_after_ascii, lemma_ascii_is_boundary, lemma_boundary_ends, lemma_first_byte,
    lemma_utf8_valid, utf8, views,
};

verus! {

// ---------------------------------------------------------------------------
// Headings become titles
// ---------------------------------------------------------------------------

/// The link, `by` bytes further to the front.
pub open spec fn moved_up(l: Link, by: int) -> Link {
    Link { start: l.start - by, end: l.end - by, url: l.url }
}

/// The link lies in the heading that ends at `end`, behind its mark.
pub open spec fn in_heading(l: Link, end: int) -> bool {
    l.start >= 2 && l.end <= end
}

/// The links of a heading that ends at `end`, as those of a title.
pub open spec fn heading_links(links: Seq<Link>, end: int) -> Seq<Link>
    decreases links.len(),
{
    if links.len() == 0 {
        Seq::empty()
    } else {
        let before = heading_links(links.drop_last(), end);
        if in_heading(links.last(), end) {
            before.push(moved_up(links.last(), 2))
        } else {
            before
        }
    }
}

/// The links behind a heading that ends at `end`, as those of a text that starts at
/// `from`. Links across the end of the heading are lost.
pub open spec fn links_below(links: Seq<Link>, end: int, from: int) -> Seq<Link>
    decreases links.len(),
{
    if links.len() == 0 {
        Seq::empty()
    } else {
        let before = links_below(links.drop_last(), end, from);
        if !in_heading(links.last(), end) && links.last().start >= from {
            before.push(moved_up(links.last(), from))
        } else {
            before
        }
    }
}

/// The links that end behind the mark of a heading, as those of a title.
pub open spec fn links_behind_mark(links: Seq<Link>) -> Seq<Link>
    decreases links.len(),
{
    if links.len() == 0 {
        Seq::empty()
    } else {
        let before = links_behind_mark(links.drop_last());
        if links.last().start >= 2 && links.last().end >= 2 {
            before.push(moved_up(links.last(), 2))
        } else {
            before
        }
    }
}

/// A title without stored tags.
pub open spec fn plain_title(text: Seq<u8>, links: Seq<Link>) -> TextRecord {
    TextRecord { text, links, tags: Seq::empty() }
}

/// Where the text behind a heading starts.
pub open spec fn below_heading(b: Seq<u8>) -> int {
    let end = first_byte(b, 10, 0);
    if end < b.len() {
        end + 1
    } else {
        end
    }
}

/// The title that the heading of a text makes.
pub open spec fn heading_title(b: Seq<u8>, links: Seq<Link>) -> TextRecord {
    let end = first_byte(b, 10, 0);
    plain_title(b.subrange(2, end), heading_links(links, end))
}

/// The text that is left when its heading is taken.
pub open spec fn rest_text(b: Seq<u8>) -> Seq<u8> {
    b.subrange(below_heading(b), b.len() as int)
}

/// The links that are left when the heading of their text is taken.
pub open spec fn rest_links(b: Seq<u8>, links: Seq<Link>) -> Seq<Link> {
    links_below(links, first_byte(b, 10, 0), below_heading(b))
}

/// An empty stored bullet.
pub open spec fn empty_block(id: Uuid) -> BlockModel {
    BlockModel {
        id,
        depth: 0,
        said: plain_title(Seq::empty(), Seq::empty()),
        active: true,
        closed_at: None,
        resurface_after: None,
    }
}

/// The bullets that are left when the first has become the title; an empty one, of
/// the identity `id`, where none is.
pub open spec fn rest_blocks(blocks: Seq<BlockModel>, id: Uuid) -> Seq<BlockModel> {
    if blocks.len() == 1 {
        seq![empty_block(id)]
    } else {
        blocks.remove(0)
    }
}

/// The entry without its heading.
pub open spec fn rest_entry(e: EntryRecord) -> EntryRecord {
    EntryRecord {
        said: TextRecord {
            text: rest_text(e.said.text),
            links: rest_links(e.said.text, e.said.links),
            tags: e.said.tags,
        },
        readonly: e.readonly,
    }
}

/// The title that the heading of a stored body makes, and the body without it. None
/// where it does not start with a heading. A reference has none.
pub open spec fn heading_taken(b: BodyModel, id: Uuid) -> Option<(TextRecord, BodyModel)> {
    match b {
        BodyModel::Plain(r) => if heads(r.text) {
            Some(
                (
                    heading_title(r.text, r.links),
                    BodyModel::Plain(
                        TextRecord {
                            text: rest_text(r.text),
                            links: rest_links(r.text, r.links),
                            tags: r.tags,
                        },
                    ),
                ),
            )
        } else {
            None
        },
        BodyModel::PopPop(text, links) => if heads(text) {
            Some(
                (
                    heading_title(text, links),
                    BodyModel::PopPop(rest_text(text), rest_links(text, links)),
                ),
            )
        } else {
            None
        },
        BodyModel::Outline(blocks, header) => if blocks.len() > 0 && heads(blocks[0].said.text) {
            let first = blocks[0].said;
            Some(
                (
                    plain_title(
                        first.text.subrange(2, first.text.len() as int),
                        links_behind_mark(first.links),
                    ),
                    BodyModel::Outline(rest_blocks(blocks, id), header),
                ),
            )
        } else {
            None
        },
        BodyModel::Table(rows, cols, cells) => if cells.len() > 0 && cells[0].len() > 0 && heads(
            cells[0][0].said.text,
        ) {
            let first = cells[0][0];
            Some(
                (
                    heading_title(first.said.text, first.said.links),
                    BodyModel::Table(
                        rows,
                        cols,
                        cells.update(0, cells[0].update(0, rest_entry(first))),
                    ),
                ),
            )
        } else {
            None
        },
        BodyModel::Reference(_) => None,
    }
}

/// A stored cell without a title whose body starts with a heading, the heading made
/// its title.
pub open spec fn title_extracted(p: PersistedModel, id: Uuid) -> Option<PersistedModel> {
    if p.title is Some {
        None
    } else {
        match heading_taken(p.body, id) {
            Some((title, body)) => Some(PersistedModel { title: Some(title), body, ..p }),
            None => None,
        }
    }
}

/// Where the text has a heading, its links can be moved up by the mark of the heading:
/// none of them starts behind the mark and ends inside it.
pub open spec fn links_movable(text: Seq<u8>, links: Seq<Link>) -> bool {
    heads(text) ==> forall|i: int|
        0 <= i < links.len() && (#[trigger] links[i]).start >= 2 ==> links[i].end >= 2
}

/// The links of a text that a heading may be taken from can be moved.
pub open spec fn headings_movable(b: BodyModel) -> bool {
    match b {
        BodyModel::Plain(r) => links_movable(r.text, r.links),
        BodyModel::PopPop(text, links) => links_movable(text, links),
        BodyModel::Outline(blocks, _) => true,
        BodyModel::Table(_, _, cells) => cells.len() > 0 && cells[0].len() > 0 ==> links_movable(
            cells[0][0].said.text,
            cells[0][0].said.links,
        ),
        BodyModel::Reference(_) => true,
    }
}

fn can_move(text: &String, links: &Vec<LinkRecord>) -> (r: bool)
    ensures
        r == links_movable(utf8(text@), views(links@)),
{
    if !is_heading(text) {
        return true;
    }
    let ghost ls = views(links@);
    let mut i: usize = 0;
    while i < links.len()
        invariant
            i <= links.len(),
            heads(utf8(text@)),
            ls == views(links@),
            forall|k: int| 0 <= k < i && (#[trigger] ls[k]).start >= 2 ==> ls[k].end >= 2,
        decreases links.len() - i,
    {
        assert(ls[i as int] == links@[i as int]@);
        if links[i].start >= 2 && links[i].end < 2 {
            return false;
        }
        i += 1;
    }
    true
}

fn move_up(l: &LinkRecord, by: usize) -> (r: LinkRecord)
    requires
        by <= l.start,
        by <= l.end,
    ensures
        r@ == moved_up(l@, by as int),
{
    SerLink { start: l.start - by, end: l.end - by, url: text::copy(l.url.as_str()) }
}

/// Takes the heading that a text starts with out of it, and its links with it: gives
/// back the title that it makes. Nothing changes where there is none.
pub fn take_heading_from_inline(text: &mut String, links: &mut Vec<LinkRecord>) -> (r: Option<
    TitleRecord,
>)
    requires
        links_movable(utf8(old(text)@), views(old(links)@)),
    ensures
        heads(utf8(old(text)@)) ==> {
            &&& r matches Some(t) && t@ == heading_title(utf8(old(text)@), views(old(links)@))
            &&& utf8(final(text)@) == rest_text(utf8(old(text)@))
            &&& views(final(links)@) == rest_links(utf8(old(text)@), views(old(links)@))
        },
        !heads(utf8(old(text)@)) ==> r is None && *final(text) == *old(text) && *final(links)
            == *old(links),
{
    if !is_heading(text) {
        return None;
    }
    let ghost b = utf8(text@);
    let ghost ls = views(links@);
    let s = text.as_str();
    let n: usize = text::len(s);
    let end: usize = text::find_byte(s, 10, 0);
    proof {
        lemma_utf8_valid(text@);
        lemma_boundary_ends(b);
        lemma_first_byte(b, 10, 0);
        assert(end >= 2) by {
            if end == 0 {
                assert(b[0] == 10);
            } else if end == 1 {
                assert(b[1] == 10);
            }
        }
        if end < n {
            lemma_ascii_is_boundary(b, end as int);
            lemma_after_ascii(b, end as int);
        }
    }
    let below: usize = if end < n {
        end + 1
    } else {
        end
    };
    let title_text = text::copy(text::slice(s, 2, end));
    let rest = text::copy(text::suffix(s, below));
    let mut title_links: Vec<LinkRecord> = Vec::new();
    let mut body_links: Vec<LinkRecord> = Vec::new();
    let mut i: usize = 0;
    proof {
        assert(ls.subrange(0, 0) =~= Seq::<Link>::empty());
        assert(views(title_links@) =~= Seq::empty());
        assert(views(body_links@) =~= Seq::empty());
    }
    while i < links.len()
        invariant
            i <= links.len(),
            ls == views(links@),
            forall|k: int| 0 <= k < ls.len() && (#[trigger] ls[k]).start >= 2 ==> ls[k].end >= 2,
            2 <= end <= below <= end + 1,
            views(title_links@) == heading_links(ls.subrange(0, i as int), end as int),
            views(body_links@) == links_below(
                ls.subrange(0, i as int),
                end as int,
                below as int,
            ),
        decreases links.len() - i,
    {
        let l = &links[i];
        let ghost upto = ls.subrange(0, i + 1);
        let ghost (tl, bl) = (title_links@, body_links@);
        proof {
            assert(upto.drop_last() =~= ls.subrange(0, i as int));
            assert(upto.last() == l@);
            assert(ls[i as int] == l@);
        }
        if l.start >= 2 && l.end <= end {
            title_links.push(move_up(l, 2));
            assert(views(title_links@) =~= views(tl).push(moved_up(l@, 2)));
        } else if l.start >= below {
            body_links.push(move_up(l, below));
            assert(views(body_links@) =~= views(bl).push(moved_up(l@, below as int)));
        }
        i += 1;
    }
    assert(ls.subrange(0, i as int) =~= ls);
    *links = body_links;
    *text = rest;
    let t = TitleRecord { text: title_text, links: title_links, tags: Vec::new() };
    assert(t@ =~= heading_title(b, ls));
    Some(t)
}

/// Takes the first bullet out where it is a heading: gives back the title that it
/// makes. Where it was the only one, an empty one of the identity `id` takes its
/// place. Nothing changes where there is no heading.
pub fn take_heading_from_outline_with(blocks: &mut Vec<BlockRecord>, id: Uuid) -> (r: Option<
    TitleRecord,
>)
    ensures
        ({
            let bs = views(old(blocks)@);
            if bs.len() > 0 && heads(bs[0].said.text) {
                &&& r matches Some(t) && t@ == plain_title(
                    bs[0].said.text.subrange(2, bs[0].said.text.len() as int),
                    links_behind_mark(bs[0].said.links),
                )
                &&& views(final(blocks)@) == rest_blocks(bs, id)
            } else {
                r is None && *final(blocks) == *old(blocks)
            }
        }),
{
    let ghost bs = views(blocks@);
    if blocks.len() == 0 {
        return None;
    }
    assert(bs[0] == blocks@[0]@);
    if !is_heading(&blocks[0].text) {
        return None;
    }
    let first = blocks.remove(0);
    assert(views(blocks@) =~= bs.remove(0));
    let ghost ls = views(first.links@);
    proof {
        lemma_utf8_valid(first.text@);
    }
    let title_text = text::copy(text::suffix(first.text.as_str(), 2));
    let mut title_links: Vec<LinkRecord> = Vec::new();
    let mut i: usize = 0;
    proof {
        assert(ls.subrange(0, 0) =~= Seq::<Link>::empty());
        assert(views(title_links@) =~= Seq::empty());
    }
    while i < first.links.len()
        invariant
            i <= first.links.len(),
            ls == views(first.links@),
            views(title_links@) == links_behind_mark(ls.subrange(0, i as int)),
        decreases first.links.len() - i,
    {
        let l = &first.links[i];
        let ghost tl = title_links@;
        proof {
            let upto = ls.subrange(0, i + 1);
            assert(upto.drop_last() =~= ls.subrange(0, i as int));
            assert(upto.last() == l@);
        }
        if l.start >= 2 && l.end >= 2 {
            title_links.push(move_up(l, 2));
            assert(views(title_links@) =~= views(tl).push(moved_up(l@, 2)));
        }
        i += 1;
    }
    assert(ls.subrange(0, i as int) =~= ls);
    if blocks.len() == 0 {
        let empty = BlockRecord {
            id,
            depth: 0,
            text: String::new(),
            links: Vec::new(),
            tags: Vec::new(),
            active: true,
            closed_at: None,
            resurface_after: None,
        };
        proof {
            assert(utf8(empty.text@) =~= Seq::<u8>::empty());
            assert(views(empty.links@) =~= Seq::empty());
            assert(views(empty.tags@) =~= Seq::empty());
            assert(empty@ =~= empty_block(id));
        }
        blocks.push(empty);
        assert(views(blocks@) =~= seq![empty_block(id)]);
    }
    let t = TitleRecord { text: title_text, links: title_links, tags: Vec::new() };
    assert(t@.tags =~= Seq::empty());
    Some(t)
}

/// Takes the heading out of the first entry: gives back the title that it makes.
/// Nothing changes where there is none.
pub fn take_heading_from_table(cells: &mut Vec<Vec<TableEntryRecord>>) -> (r: Option<TitleRecord>)
    requires
        headings_movable(BodyModel::Table(0, 0, rows_record(old(cells)@))),
    ensures
        ({
            let g = rows_record(old(cells)@);
            if g.len() > 0 && g[0].len() > 0 && heads(g[0][0].said.text) {
                &&& r matches Some(t) && t@ == heading_title(
                    g[0][0].said.text,
                    g[0][0].said.links,
                )
                &&& rows_record(final(cells)@) == g.update(0, g[0].update(0, rest_entry(g[0][0])))
            } else {
                r is None && rows_record(final(cells)@) == g
            }
        }),
{
    let ghost g = rows_record(cells@);
    if cells.len() == 0 {
        return None;
    }
    assert(g[0] == views(cells@[0]@));
    if cells[0].len() == 0 {
        return None;
    }
    assert(g[0][0] == cells@[0]@[0]@);
    let ghost held = cells@;
    let mut row = cells.remove(0);
    let ghost entries = row@;
    let mut first = row.remove(0);
    let ghost e = first@;
    assert(e == g[0][0]);
    let r = take_heading_from_inline(&mut first.text, &mut first.links);
    let ghost left = first@;
    row.insert(0, first);
    cells.insert(0, row);
    proof {
        assert(views(cells@[0]@) =~= g[0].update(0, left));
        assert(rows_record(cells@) =~= g.update(0, g[0].update(0, left))) by {
            assert forall|k: int| 1 <= k < g.len() implies rows_record(cells@)[k] == g[k] by {
                assert(cells@[k] == held[k]);
            }
        }
        if heads(e.said.text) {
            assert(left =~= rest_entry(e));
        } else {
            assert(left =~= e);
            assert(g[0].update(0, e) =~= g[0]);
            assert(g.update(0, g[0]) =~= g);
        }
    }
    r
}

impl PersistedCell {
    /// Whether the links of a text that a heading may be taken from can be moved.
    pub fn headings_movable(&self) -> (r: bool)
        ensures
            r == headings_movable(self@.body),
    {
        match &self.body {
            CellBody::Plain { text, links, .. } => can_move(text, links),
            CellBody::PopPop { text, links } => can_move(text, links),
            CellBody::Table { cells, .. } => {
                let ghost g = rows_record(cells@);
                if cells.len() == 0 {
                    return true;
                }
                assert(g[0] == views(cells@[0]@));
                if cells[0].len() == 0 {
                    return true;
                }
                assert(g[0][0] == cells@[0]@[0]@);
                can_move(&cells[0][0].text, &cells[0][0].links)
            },
            _ => true,
        }
    }

    /// Makes the heading that the body starts with the title, where there is no title
    /// yet. Says whether it did.
    pub fn extract_title_with(&mut self, id: Uuid) -> (r: bool)
        requires
            headings_movable(old(self)@.body),
        ensures
            match title_extracted(old(self)@, id) {
                Some(p) => r && final(self)@ == p,
                None => !r && final(self)@ == old(self)@,
            },
    {
        let ghost p = self@;
        if self.title.is_some() {
            return false;
        }
        let extracted = match &mut self.body {
            CellBody::Plain { text, links, .. } => take_heading_from_inline(text, links),
            CellBody::PopPop { text, links } => take_heading_from_inline(text, links),
            CellBody::Outline { blocks, .. } => take_heading_from_outline_with(blocks, id),
            CellBody::Table { cells, .. } => take_heading_from_table(cells),
            CellBody::Reference { .. } => None,
        };
        match extracted {
            Some(title) => {
                self.title = Some(title);
                assert(title_extracted(p, id) is Some);
                assert(self@ =~= title_extracted(p, id)->0);
                true
            },
            None => {
                assert(self@ =~= p);
                false
            },
        }
    }
}

/// What the JSON of a stored cell becomes when the heading that its body starts with
/// becomes its title. None where it is to be left as it is: it is not the JSON of a
/// stored cell, the cell has a title or no heading, or one of the links that would
/// have to be moved starts behind the mark of the heading and ends inside it.
pub open spec fn title_migrated(b: Seq<u8>, id: Uuid) -> Option<Seq<u8>> {
    match persisted_read(b) {
        Some(p) => if headings_movable(p.body) {
            match title_extracted(p, id) {
                Some(q) => Some(json_stored(persisted_json(q))),
                None => None,
            }
        } else {
            None
        },
        None => None,
    }
}

/// Makes the heading that a stored body starts with its title, where there is no
/// title yet: gives back the new JSON. An empty bullet, where one is needed, gets the
/// identity `id`.
pub fn extract_title_with(body_json: &str, id: Uuid) -> (r: Option<String>)
    ensures
        optional_bytes(r) == title_migrated(utf8(body_json@), id),
        r matches Some(text) ==> persisted_read(utf8(text@)) == title_extracted(
            persisted_read(utf8(body_json@))->0,
            id,
        ),
{
    match PersistedCell::parse(body_json) {
        Some(p) => {
            if !p.headings_movable() {
                return None;
            }
            let mut p = p;
            if p.extract_title_with(id) {
                Some(p.to_text())
            } else {
                None
            }
        },
        None => None,
    }
}

/// Makes the heading that a stored body starts with its title, where there is no
/// title yet: gives back the new JSON.
pub fn extract_title_from_body_json(body_json: &str) -> (r: Option<String>)
    ensures
        exists|id: Uuid|
            optional_bytes(r) == #[trigger] title_migrated(utf8(body_json@), id) && (
            r matches Some(text) ==> persisted_read(utf8(text@)) == title_extracted(
                persisted_read(utf8(body_json@))->0,
                id,
            )),
{
    let id: Uuid = new_id();
    let r = extract_title_with(body_json, id);
    assert(optional_bytes(r) == title_migrated(utf8(body_json@), id));
    r
}

/// Once a cell has a title, there is nothing to take.
pub proof fn titles_are_extracted_once(p: PersistedModel, id: Uuid, other: Uuid)
    requires
        title_extracted(p, id) is Some,
    ensures
        title_extracted(title_extracted(p, id)->0, other) is None,
{
}

/// What a plain text says is kept when its heading becomes its title: mark, title, a
/// line end where there is more, and the rest make the text.
pub proof fn extracting_a_title_loses_no_text(r: TextRecord, id: Uuid)
    requires
        heads(r.text),
    ensures
        ({
            let (title, body) = heading_taken(BodyModel::Plain(r), id)->0;
            let rest = body->Plain_0.text;
            let end = first_byte(r.text, 10, 0);
            r.text == seq![35u8, 32] + title.text + (if end < r.text.len() {
                seq![10u8] + rest
            } else {
                Seq::empty()
            })
        }),
{
    let b = r.text;
    let end = first_byte(b, 10, 0);
    lemma_first_byte(b, 10, 0);
    assert(end >= 2) by {
        if end == 0 {
            assert(b[0] == 10);
        } else if end == 1 {
            assert(b[1] == 10);
        }
    }
    let (title, body) = heading_taken(BodyModel::Plain(r), id)->0;
    let rest = body->Plain_0.text;
    if end < b.len() {
        assert(b =~= seq![35u8, 32] + title.text + (seq![10u8] + rest));
    } else {
        assert(b =~= seq![35u8, 32] + title.text + Seq::empty());
    }
}

// ---------------------------------------------------------------------------
// Tags become stored ones
// ---------------------------------------------------------------------------

/// The spans with more than one byte.
pub open spec fn named_spans(ts: Seq<Span>) -> Seq<Span>
    decreases ts.len(),
{
    if ts.len() == 0 {
        Seq::empty()
    } else {
        let before = named_spans(ts.drop_last());
        if ts.last().end > ts.last().start + 1 {
            before.push(ts.last())
        } else {
            before
        }
    }
}

/// A stored text; where it has no stored tags, with those that it spells.
pub open spec fn spans_filled(r: TextRecord, heading: bool) -> TextRecord {
    if r.tags.len() > 0 {
        r
    } else {
        TextRecord { tags: named_spans(tags_spelled(r, heading)), ..r }
    }
}

/// A stored body with stored tags. Calculators and references have none.
pub open spec fn body_filled(b: BodyModel) -> BodyModel {
    match b {
        BodyModel::Plain(r) => BodyModel::Plain(spans_filled(r, false)),
        BodyModel::Outline(blocks, header) => BodyModel::Outline(
            Seq::new(
                blocks.len(),
                |i: int| BlockModel { said: spans_filled(blocks[i].said, false), ..blocks[i] },
            ),
            header,
        ),
        BodyModel::Table(rows, cols, cells) => BodyModel::Table(
            rows,
            cols,
            Seq::new(cells.len(), |r: int| row_filled(cells[r])),
        ),
        _ => b,
    }
}

/// A stored row with stored tags.
pub open spec fn row_filled(row: Seq<EntryRecord>) -> Seq<EntryRecord> {
    Seq::new(
        row.len(),
        |c: int| EntryRecord { said: spans_filled(row[c].said, false), ..row[c] },
    )
}

/// A stored cell with stored tags.
pub open spec fn persisted_filled(p: PersistedModel) -> PersistedModel {
    PersistedModel {
        title: match p.title {
            Some(t) => Some(spans_filled(t, true)),
            None => None,
        },
        body: body_filled(p.body),
        ..p
    }
}

fn named_records(found: &Vec<Range<usize>>) -> (v: Vec<TagRecord>)
    ensures
        views(v@) == named_spans(spans(found@)),
{
    let ghost ts = spans(found@);
    let mut out: Vec<TagRecord> = Vec::new();
    let mut i: usize = 0;
    proof {
        assert(ts.subrange(0, 0) =~= Seq::<Span>::empty());
        assert(views(out@) =~= Seq::empty());
    }
    while i < found.len()
        invariant
            i <= found.len(),
            ts == spans(found@),
            views(out@) == named_spans(ts.subrange(0, i as int)),
        decreases found.len() - i,
    {
        let ghost held = out@;
        proof {
            let upto = ts.subrange(0, i + 1);
            assert(upto.drop_last() =~= ts.subrange(0, i as int));
            assert(upto.last() == span(found@[i as int]));
        }
        let (start, end): (usize, usize) = (found[i].start, found[i].end);
        if end > start && end - start > 1 {
            out.push(TagRecord { start, end });
            assert(views(out@) =~= views(held).push(span(found@[i as int])));
        }
        i += 1;
    }
    assert(ts.subrange(0, i as int) =~= ts);
    out
}

fn fill_tags(text: &String, tags: &mut Vec<TagRecord>, heading: bool)
    ensures
        forall|ls: Seq<Link>|
            (TextRecord { text: utf8(text@), links: ls, tags: views(final(tags)@) })
                == #[trigger] spans_filled(
                (TextRecord { text: utf8(text@), links: ls, tags: views(old(tags)@) }),
                heading,
            ),
{
    if tags.len() == 0 {
        let found = spelled_tags(text, heading);
        *tags = named_records(&found);
    }
}

impl PersistedCell {
    /// Stores the tags that each text spells, where none of it is stored: those that
    /// close a title, those anywhere in a body.
    pub fn fill_tags(&mut self)
        ensures
            final(self)@ == persisted_filled(old(self)@),
    {
        let ghost p = self@;
        if let Some(t) = &mut self.title {
            fill_tags(&t.text, &mut t.tags, true);
        }
        match &mut self.body {
            CellBody::Plain { text, tags, .. } => {
                fill_tags(text, tags, false);
            },
            CellBody::Outline { blocks, .. } => {
                fill_blocks(blocks);
            },
            CellBody::Table { cells, .. } => {
                fill_rows(cells);
            },
            _ => {},
        }
        assert(self@ =~= persisted_filled(p));
    }
}

fn fill_blocks(blocks: &mut Vec<BlockRecord>)
    ensures
        views(final(blocks)@) == Seq::new(
            views(old(blocks)@).len(),
            |i: int|
                BlockModel {
                    said: spans_filled(views(old(blocks)@)[i].said, false),
                    ..views(old(blocks)@)[i]
                },
        ),
{
    let ghost bs = views(blocks@);
    let mut i: usize = 0;
    while i < blocks.len()
        invariant
            i <= blocks.len(),
            blocks@.len() == bs.len(),
            forall|k: int|
                0 <= k < i ==> (#[trigger] blocks@[k])@ == (BlockModel {
                    said: spans_filled(bs[k].said, false),
                    ..bs[k]
                }),
            forall|k: int| i <= k < bs.len() ==> (#[trigger] blocks@[k])@ == bs[k],
        decreases blocks.len() - i,
    {
        let ghost held = blocks@;
        let b = &mut blocks[i];
        fill_tags(&b.text, &mut b.tags, false);
        proof {
            let k = i as int;
            assert(blocks@[k]@.said == spans_filled(held[k]@.said, false));
            assert(blocks@[k]@ =~= BlockModel { said: spans_filled(bs[k].said, false), ..bs[k] });
        }
        i += 1;
    }
    assert(views(blocks@) =~= Seq::new(
        bs.len(),
        |i: int| BlockModel { said: spans_filled(bs[i].said, false), ..bs[i] },
    ));
}

fn fill_row(row: &mut Vec<TableEntryRecord>)
    ensures
        views(final(row)@) == row_filled(views(old(row)@)),
{
    let ghost es = views(row@);
    let mut i: usize = 0;
    while i < row.len()
        invariant
            i <= row.len(),
            row@.len() == es.len(),
            forall|k: int|
                0 <= k < i ==> (#[trigger] row@[k])@ == (EntryRecord {
                    said: spans_filled(es[k].said, false),
                    ..es[k]
                }),
            forall|k: int| i <= k < es.len() ==> (#[trigger] row@[k])@ == es[k],
        decreases row.len() - i,
    {
        let ghost held = row@;
        let e = &mut row[i];
        fill_tags(&e.text, &mut e.tags, false);
        proof {
            let k = i as int;
            assert(row@[k]@.said == spans_filled(held[k]@.said, false));
        }
        i += 1;
    }
    assert(views(row@) =~= row_filled(es));
}

fn fill_rows(rows: &mut Vec<Vec<TableEntryRecord>>)
    ensures
        rows_record(final(rows)@) == Seq::new(
            rows_record(old(rows)@).len(),
            |r: int| row_filled(rows_record(old(rows)@)[r]),
        ),
{
    let ghost g = rows_record(rows@);
    let mut i: usize = 0;
    while i < rows.len()
        invariant
            i <= rows.len(),
            rows@.len() == g.len(),
            forall|k: int| 0 <= k < i ==> views((#[trigger] rows@[k])@) == row_filled(g[k]),
            forall|k: int| i <= k < g.len() ==> views((#[trigger] rows@[k])@) == g[k],
        decreases rows.len() - i,
    {
        fill_row(&mut rows[i]);
        i += 1;
    }
    assert(rows_record(rows@) =~= Seq::new(g.len(), |r: int| row_filled(g[r])));
}

/// What the JSON of a stored cell becomes when the tags that it spells become stored
/// ones. None where it is not the JSON of a stored cell.
pub open spec fn tags_migrated(b: Seq<u8>) -> Option<Seq<u8>> {
    match persisted_read(b) {
        Some(p) => Some(json_stored(persisted_json(persisted_filled(p)))),
        None => None,
    }
}

/// Stores the tags that each text of a stored cell spells: gives back the new JSON.
pub fn fill_tags_in_body_json(body_json: &str) -> (r: Option<String>)
    ensures
        optional_bytes(r) == tags_migrated(utf8(body_json@)),
        r matches Some(text) ==> persisted_read(utf8(text@)) == Some(
            persisted_filled(persisted_read(utf8(body_json@))->0),
        ),
{
    match PersistedCell::parse(body_json) {
        Some(p) => {
            let mut p = p;
            p.fill_tags();
            Some(p.to_text())
        },
        None => None,
    }
}

/// Storing tags twice is storing them once.
pub proof fn tags_are_filled_once(r: TextRecord, heading: bool)
    ensures
        spans_filled(spans_filled(r, heading), heading) == spans_filled(r, heading),
{
}

} // verus!
