//! What a cell is found by: its texts, the addresses of its links and its tags.
use vstd::prelude::*;
use vstd::utf8::*;

use crate::cell::{name_end, tag_ending_at, CellModel, KindModel};
use crate::cell::body::{link_urls, tag_names, urls_of};
use crate::cell::bullets::{lines_joined, repeated, texts, two_spaces, BulletModel};
use crate::cell::common::{is_tag_address, Link};
use crate::cell::model::{tag_named, tags_into, TextModel};
use crate::cell::table::{grid_joined, grid_urls, row_joined, row_texts, EntryModel};
use crate::cell::wrap::{
    lemma_no_boundary_before, lemma_prev_boundary, prev_boundary, trimmed_end, white_before,
};
use crate::text::{blank, boundary, char_at, first_byte, lemma_boundary_ends, white};

verus! {

/// `t` is a text of the body.
pub open spec fn body_holds(k: KindModel, t: TextModel) -> bool {
    match k {
        KindModel::Plain(own) => t == own,
        KindModel::Outline(o, _) => exists|i: int|
            0 <= i < o.bullets.len() && (#[trigger] o.bullets[i]).text == t,
        KindModel::PopPop(p) => t == p.input || t == p.output,
        KindModel::Table(own) => exists|r: int, c: int|
            #![trigger own.cells[r][c]]
            0 <= r < own.cells.len() && 0 <= c < own.cells[r].len() && own.cells[r][c].text == t,
        KindModel::Reference(_) => false,
    }
}

/// `t` is the title of the cell or a text of its body.
pub open spec fn cell_holds(m: CellModel, t: TextModel) -> bool {
    m.title == Some(t) || body_holds(m.kind, t)
}

/// A link of the text leads to `url`.
pub open spec fn links_lead_to(t: TextModel, url: Seq<u8>) -> bool {
    exists|i: int| 0 <= i < t.doc.links.len() && (#[trigger] t.doc.links[i]).url == url
}

proof fn lemma_urls_of(t: TextModel, url: Seq<u8>)
    ensures
        urls_of(t.doc.links).contains(url) <==> links_lead_to(t, url),
{
    let us = urls_of(t.doc.links);
    if us.contains(url) {
        let i = choose|i: int| 0 <= i < us.len() && us[i] == url;
        assert(t.doc.links[i].url == url);
    }
    if links_lead_to(t, url) {
        let i = choose|i: int| 0 <= i < t.doc.links.len() && (#[trigger] t.doc.links[i]).url == url;
        assert(us[i] == url);
    }
}

proof fn lemma_added_contains(x: Seq<Seq<u8>>, y: Seq<Seq<u8>>, u: Seq<u8>)
    ensures
        (x + y).contains(u) <==> x.contains(u) || y.contains(u),
{
    let all = x + y;
    if all.contains(u) {
        let i = choose|i: int| 0 <= i < all.len() && all[i] == u;
        if i < x.len() {
            assert(x[i] == u);
        } else {
            assert(y[i - x.len()] == u);
        }
    }
    if x.contains(u) {
        let i = choose|i: int| 0 <= i < x.len() && x[i] == u;
        assert(all[i] == u);
    }
    if y.contains(u) {
        let i = choose|i: int| 0 <= i < y.len() && y[i] == u;
        assert(all[x.len() + i] == u);
    }
}

proof fn lemma_link_urls(ts: Seq<TextModel>, n: int, url: Seq<u8>)
    requires
        0 <= n <= ts.len(),
    ensures
        link_urls(ts, n).contains(url) <==> exists|i: int|
            0 <= i < n && links_lead_to(#[trigger] ts[i], url),
    decreases n,
{
    if n > 0 {
        lemma_link_urls(ts, n - 1, url);
        lemma_added_contains(link_urls(ts, n - 1), urls_of(ts[n - 1].doc.links), url);
        lemma_urls_of(ts[n - 1], url);
    }
}

proof fn lemma_grid_urls(cells: Seq<Seq<EntryModel>>, n: int, url: Seq<u8>)
    requires
        0 <= n <= cells.len(),
    ensures
        grid_urls(cells, n).contains(url) <==> exists|r: int, c: int|
            #![trigger cells[r][c]]
            0 <= r < n && 0 <= c < cells[r].len() && links_lead_to(cells[r][c].text, url),
    decreases n,
{
    if n > 0 {
        let row = cells[n - 1];
        let ts = row_texts(row);
        lemma_grid_urls(cells, n - 1, url);
        lemma_added_contains(grid_urls(cells, n - 1), link_urls(ts, row.len() as int), url);
        lemma_link_urls(ts, row.len() as int, url);
        if link_urls(ts, row.len() as int).contains(url) {
            let c = choose|c: int| 0 <= c < row.len() && links_lead_to(#[trigger] ts[c], url);
            assert(ts[c] == cells[n - 1][c].text);
        }
        if exists|r: int, c: int|
            #![trigger cells[r][c]]
            0 <= r < n && 0 <= c < cells[r].len() && links_lead_to(cells[r][c].text, url) {
            let (r, c) = choose|r: int, c: int|
                #![trigger cells[r][c]]
                0 <= r < n && 0 <= c < cells[r].len() && links_lead_to(cells[r][c].text, url);
            if r == n - 1 {
                assert(ts[c] == cells[r][c].text);
            }
        }
    }
}

/// The addresses of a cell are those of the links of its title and of all texts of its body: each
/// of them is there, and no other.
pub proof fn addresses_are_those_of_all_links(m: CellModel, url: Seq<u8>)
    ensures
        m.urls().contains(url) <==> exists|t: TextModel| #[trigger]
            cell_holds(m, t) && links_lead_to(t, url),
{
    let own = m.kind.urls();
    assert(own.contains(url) <==> exists|t: TextModel| #[trigger]
        body_holds(m.kind, t) && links_lead_to(t, url)) by {
        match m.kind {
            KindModel::Plain(t) => {
                lemma_urls_of(t, url);
                assert(body_holds(m.kind, t));
            },
            KindModel::Outline(o, _) => {
                let ts = texts(o.bullets);
                lemma_link_urls(ts, o.bullets.len() as int, url);
                if own.contains(url) {
                    let i = choose|i: int|
                        0 <= i < ts.len() && links_lead_to(#[trigger] ts[i], url);
                    assert(o.bullets[i].text == ts[i]);
                    assert(body_holds(m.kind, ts[i]));
                }
                if exists|t: TextModel| #[trigger] body_holds(m.kind, t) && links_lead_to(t, url) {
                    let t = choose|t: TextModel| #[trigger]
                        body_holds(m.kind, t) && links_lead_to(t, url);
                    let i = choose|i: int|
                        0 <= i < o.bullets.len() && (#[trigger] o.bullets[i]).text == t;
                    assert(ts[i] == t);
                }
            },
            KindModel::PopPop(p) => {
                lemma_urls_of(p.input, url);
                lemma_urls_of(p.output, url);
                lemma_added_contains(urls_of(p.input.doc.links), urls_of(p.output.doc.links), url);
                assert(body_holds(m.kind, p.input));
                assert(body_holds(m.kind, p.output));
            },
            KindModel::Table(t) => {
                lemma_grid_urls(t.cells, t.cells.len() as int, url);
                if own.contains(url) {
                    let (r, c) = choose|r: int, c: int|
                        #![trigger t.cells[r][c]]
                        0 <= r < t.cells.len() && 0 <= c < t.cells[r].len() && links_lead_to(
                            t.cells[r][c].text,
                            url,
                        );
                    assert(body_holds(m.kind, t.cells[r][c].text));
                }
            },
            KindModel::Reference(_) => {},
        }
    }
    match m.title {
        Some(t) => {
            lemma_urls_of(t, url);
            lemma_added_contains(urls_of(t.doc.links), own, url);
            assert(cell_holds(m, t));
        },
        None => {},
    }
    if exists|t: TextModel| #[trigger] body_holds(m.kind, t) && links_lead_to(t, url) {
        let t = choose|t: TextModel| #[trigger] body_holds(m.kind, t) && links_lead_to(t, url);
        assert(cell_holds(m, t));
    }
    if exists|t: TextModel| #[trigger] cell_holds(m, t) && links_lead_to(t, url) {
        let t = choose|t: TextModel| #[trigger] cell_holds(m, t) && links_lead_to(t, url);
        if m.title != Some(t) {
            assert(body_holds(m.kind, t));
        }
    }
}

// ---------------------------------------------------------------------------
// Text
// ---------------------------------------------------------------------------

/// `p` stands somewhere in `b`.
pub open spec fn stands_in(b: Seq<u8>, p: Seq<u8>) -> bool {
    exists|front: Seq<u8>, back: Seq<u8>| b == #[trigger] (front + p + back)
}

proof fn lemma_stands_between(front: Seq<u8>, b: Seq<u8>, back: Seq<u8>, p: Seq<u8>)
    requires
        stands_in(b, p),
    ensures
        stands_in(front + b + back, p),
{
    let (x, y) = choose|x: Seq<u8>, y: Seq<u8>| b == #[trigger] (x + p + y);
    assert(front + b + back =~= (front + x) + p + (y + back));
}

proof fn lemma_stands_in_itself(p: Seq<u8>)
    ensures
        stands_in(p, p),
{
    assert(p =~= Seq::<u8>::empty() + p + Seq::<u8>::empty());
}

proof fn lemma_line_stands(bs: Seq<BulletModel>, unit: Seq<u8>, hi: int, i: int)
    requires
        0 <= i < hi <= bs.len(),
    ensures
        stands_in(lines_joined(bs, unit, 0, hi), bs[i].text.doc.text),
    decreases hi,
{
    let none = Seq::<u8>::empty();
    let text = bs[hi - 1].text.doc.text;
    let lead = repeated(unit, bs[hi - 1].depth as int);
    let own = lead + text;
    let all = lines_joined(bs, unit, 0, hi);
    if i == hi - 1 {
        lemma_stands_in_itself(text);
        lemma_stands_between(lead, text, none, text);
        assert(lead + text + none =~= own);
        if hi > 1 {
            let before = lines_joined(bs, unit, 0, hi - 1) + seq![10u8];
            lemma_stands_between(before, own, none, text);
            assert(before + own + none =~= all);
        }
    } else {
        let before = lines_joined(bs, unit, 0, hi - 1);
        lemma_line_stands(bs, unit, hi - 1, i);
        lemma_stands_between(none, before, seq![10u8] + own, bs[i].text.doc.text);
        assert(none + before + (seq![10u8] + own) =~= all);
    }
}

proof fn lemma_entry_stands(row: Seq<EntryModel>, n: int, c: int)
    requires
        0 <= c < n <= row.len(),
    ensures
        stands_in(row_joined(row, n), row[c].text.doc.text),
    decreases n,
{
    let none = Seq::<u8>::empty();
    let own = row[n - 1].text.doc.text;
    let all = row_joined(row, n);
    if n == 1 {
        lemma_stands_in_itself(own);
    } else {
        let before = row_joined(row, n - 1);
        if c == n - 1 {
            lemma_stands_in_itself(own);
            lemma_stands_between(before + seq![9u8], own, none, own);
            assert(before + seq![9u8] + own + none =~= all);
        } else {
            lemma_entry_stands(row, n - 1, c);
            lemma_stands_between(none, before, seq![9u8] + own, row[c].text.doc.text);
            assert(none + before + (seq![9u8] + own) =~= all);
        }
    }
}

proof fn lemma_row_stands(cells: Seq<Seq<EntryModel>>, n: int, r: int, p: Seq<u8>)
    requires
        0 <= r < n <= cells.len(),
        stands_in(row_joined(cells[r], cells[r].len() as int), p),
    ensures
        stands_in(grid_joined(cells, n), p),
    decreases n,
{
    let none = Seq::<u8>::empty();
    let own = row_joined(cells[n - 1], cells[n - 1].len() as int);
    let all = grid_joined(cells, n);
    if n > 1 {
        let before = grid_joined(cells, n - 1);
        if r == n - 1 {
            lemma_stands_between(before + seq![10u8], own, none, p);
            assert(before + seq![10u8] + own + none =~= all);
        } else {
            lemma_row_stands(cells, n - 1, r, p);
            lemma_stands_between(none, before, seq![10u8] + own, p);
            assert(none + before + (seq![10u8] + own) =~= all);
        }
    }
}

/// A cell can be found by all that is written in it: its title, and every text of its body that
/// the user writes, stands in its whole text.
pub proof fn all_that_is_written_can_be_found(m: CellModel, t: TextModel)
    requires
        cell_holds(m, t),
        t.doc.text.len() > 0,
        m.kind matches KindModel::PopPop(p) ==> t == p.input || m.title == Some(t),
    ensures
        stands_in(m.full(), t.doc.text),
{
    let none = Seq::<u8>::empty();
    let own = m.kind.full();
    let text = t.doc.text;
    if m.title == Some(t) {
        lemma_stands_in_itself(text);
        lemma_stands_between(none, text, seq![10u8] + own, text);
        assert(none + text + (seq![10u8] + own) =~= m.full());
    } else {
        assert(stands_in(own, text)) by {
            match m.kind {
                KindModel::Outline(o, _) => {
                    let i = choose|i: int|
                        0 <= i < o.bullets.len() && (#[trigger] o.bullets[i]).text == t;
                    lemma_line_stands(o.bullets, two_spaces(), o.bullets.len() as int, i);
                },
                KindModel::Table(g) => {
                    let (r, c) = choose|r: int, c: int|
                        #![trigger g.cells[r][c]]
                        0 <= r < g.cells.len() && 0 <= c < g.cells[r].len()
                            && g.cells[r][c].text == t;
                    lemma_entry_stands(g.cells[r], g.cells[r].len() as int, c);
                    lemma_row_stands(g.cells, g.cells.len() as int, r, text);
                },
                _ => {
                    lemma_stands_in_itself(text);
                },
            }
        }
        if let Some(h) = m.title {
            if h.doc.text.len() > 0 {
                lemma_stands_between(h.doc.text + seq![10u8], own, none, text);
                assert(h.doc.text + seq![10u8] + own + none =~= m.full());
            }
        }
    }
}

// ---------------------------------------------------------------------------
// Tags
// ---------------------------------------------------------------------------

/// A link of the text that ends by `limit` marks the tag `name`.
pub open spec fn marks_by(links: Seq<Link>, limit: int, name: Seq<u8>) -> bool {
    exists|i: int|
        0 <= i < links.len() && links[i].end <= limit && tag_named(#[trigger] links[i]) == Some(
            name,
        )
}

proof fn lemma_tags_into(names: Seq<Seq<u8>>, links: Seq<Link>, limit: int, name: Seq<u8>)
    ensures
        tags_into(names, links, limit).contains(name) <==> names.contains(name) || marks_by(
            links,
            limit,
            name,
        ),
    decreases links.len(),
{
    if links.len() > 0 {
        let front = links.drop_last();
        let before = tags_into(names, front, limit);
        let after = tags_into(names, links, limit);
        lemma_tags_into(names, front, limit, name);
        if marks_by(front, limit, name) {
            let i = choose|i: int|
                0 <= i < front.len() && front[i].end <= limit && tag_named(#[trigger] front[i])
                    == Some(name);
            assert(tag_named(links[i]) == Some(name));
        }
        if marks_by(links, limit, name) {
            let i = choose|i: int|
                0 <= i < links.len() && links[i].end <= limit && tag_named(#[trigger] links[i])
                    == Some(name);
            if i < front.len() {
                assert(tag_named(front[i]) == Some(name));
            }
        }
        match tag_named(links.last()) {
            Some(own) if links.last().end <= limit => {
                if !before.contains(own) {
                    assert(after == before.push(own));
                    assert(after[after.len() - 1] == own);
                    if before.contains(name) {
                        let i = choose|i: int| 0 <= i < before.len() && before[i] == name;
                        assert(after[i] == name);
                    }
                }
                if own == name {
                    assert(tag_named(links[links.len() - 1]) == Some(name));
                }
            },
            _ => {},
        }
    }
}

/// The tags of a title are those that its links mark on its first line: each of them is there, and
/// no other.
pub proof fn tags_of_titles_are_those_of_the_first_line(m: CellModel, name: Seq<u8>)
    ensures
        m.heading_tags().contains(name) <==> (m.title matches Some(t) && t.force_heading
            && marks_by(t.doc.links, first_byte(t.doc.text, 10, 0), name)),
{
    match m.title {
        Some(t) => {
            lemma_tags_into(Seq::empty(), t.doc.links, t.heading_end(), name);
        },
        None => {},
    }
}

proof fn lemma_tag_names(names: Seq<Seq<u8>>, ts: Seq<TextModel>, n: int, name: Seq<u8>)
    requires
        0 <= n <= ts.len(),
    ensures
        tag_names(names, ts, n).contains(name) <==> names.contains(name) || exists|i: int|
            0 <= i < n && marks_by((#[trigger] ts[i]).doc.links, usize::MAX as int, name),
    decreases n,
{
    if n > 0 {
        lemma_tag_names(names, ts, n - 1, name);
        lemma_tags_into(
            tag_names(names, ts, n - 1),
            ts[n - 1].doc.links,
            usize::MAX as int,
            name,
        );
    }
}

/// A plain body, and an outline, has the tags that links mark in its texts, besides those of the
/// title: each of them is there, and no other.
pub proof fn tags_are_those_of_all_texts(m: CellModel, name: Seq<u8>)
    requires
        m.kind is Plain || m.kind is Outline,
    ensures
        m.tags().contains(name) <==> m.heading_tags().contains(name) || exists|t: TextModel|
            #[trigger] body_holds(m.kind, t) && marks_by(t.doc.links, usize::MAX as int, name),
{
    let head = m.heading_tags();
    match m.kind {
        KindModel::Plain(t) => {
            lemma_tags_into(head, t.doc.links, usize::MAX as int, name);
            assert(body_holds(m.kind, t));
        },
        KindModel::Outline(o, _) => {
            let ts = texts(o.bullets);
            lemma_tag_names(head, ts, o.bullets.len() as int, name);
            if exists|i: int|
                0 <= i < ts.len() && marks_by(
                    (#[trigger] ts[i]).doc.links,
                    usize::MAX as int,
                    name,
                ) {
                let i = choose|i: int|
                    0 <= i < ts.len() && marks_by(
                        (#[trigger] ts[i]).doc.links,
                        usize::MAX as int,
                        name,
                    );
                assert(o.bullets[i].text == ts[i]);
                assert(body_holds(m.kind, ts[i]));
            }
            if exists|t: TextModel| #[trigger]
                body_holds(m.kind, t) && marks_by(t.doc.links, usize::MAX as int, name) {
                let t = choose|t: TextModel| #[trigger]
                    body_holds(m.kind, t) && marks_by(t.doc.links, usize::MAX as int, name);
                let i = choose|i: int|
                    0 <= i < o.bullets.len() && (#[trigger] o.bullets[i]).text == t;
                assert(ts[i] == t);
            }
        },
        _ => {},
    }
}

// ---------------------------------------------------------------------------
// Titles
// ---------------------------------------------------------------------------

/// A title that nobody wrote in does not stay: going to the title and leaving it gives back the
/// cell without one. A title that says something stays as it is.
pub proof fn empty_titles_do_not_stay(m: CellModel)
    requires
        !(m.kind is Reference),
    ensures
        m.title_toggled().title is Some,
        m.title_toggled().title_focused,
        m.title matches Some(t) ==> m.title_toggled().title == Some(t),
        m.title is None ==> m.title_toggled().title_left().title is None,
        m.title matches Some(t) && !blank(t.doc.text) ==> m.title_toggled().title_left().title
            == m.title,
        m.title_toggled().title_left().kind == m.kind,
        !m.title_toggled().title_left().title_focused,
{
}

/// The name that a title gives ends with no white space and with no tag, and starts where the
/// title does; what follows it on the line is white space and tags.
pub proof fn names_end_in_front_of_the_tags(b: Seq<u8>, links: Seq<Link>, end: int)
    requires
        valid_utf8(b),
        boundary(b, end),
        forall|i: int|
            0 <= i < links.len() && is_tag_address((#[trigger] links[i]).url) ==> boundary(
                b,
                links[i].start,
            ),
    ensures
        ({
            let e = name_end(b, links, end);
            &&& 0 <= e <= end
            &&& !white_before(b, e)
            &&& forall|i: int|
                0 <= i < links.len() && is_tag_address((#[trigger] links[i]).url)
                    && links[i].end == e && links[i].start >= 0 ==> links[i].start >= e || exists|
                    j: int,
                |
                    0 <= j < i && is_tag_address((#[trigger] links[j]).url) && links[j].end == e
            &&& forall|q: int|
                e <= q < end && #[trigger] boundary(b, q) ==> white(char_at(b, q)) || exists|i: int|
                    0 <= i < links.len() && is_tag_address((#[trigger] links[i]).url)
                        && links[i].start <= q < links[i].end
        }),
    decreases end,
{
    let e = trimmed_end(b, end);
    lemma_boundary_ends(b);
    lemma_trimmed_back(b, end);
    lemma_tag_ending(links, e, 0);
    let k = tag_ending_at(links, e, 0);
    if k < links.len() && 0 <= links[k].start < e && e <= end {
        names_end_in_front_of_the_tags(b, links, links[k].start);
        let last = name_end(b, links, end);
        assert forall|q: int| last <= q < end && #[trigger] boundary(b, q) implies white(
            char_at(b, q),
        ) || exists|i: int|
            0 <= i < links.len() && is_tag_address((#[trigger] links[i]).url) && links[i].start
                <= q < links[i].end by {
            if links[k].start <= q < e {
                assert(is_tag_address(links[k].url));
            }
        }
    } else {
        assert forall|i: int|
            0 <= i < links.len() && is_tag_address((#[trigger] links[i]).url) && links[i].end == e
                && links[i].start >= 0 implies links[i].start >= e || exists|j: int|
            0 <= j < i && is_tag_address((#[trigger] links[j]).url) && links[j].end == e by {
            if i > k {
                assert(is_tag_address(links[k].url));
            }
        }
    }
}

pub proof fn lemma_trimmed_back(b: Seq<u8>, end: int)
    requires
        valid_utf8(b),
        boundary(b, end),
    ensures
        0 <= trimmed_end(b, end) <= end,
        boundary(b, trimmed_end(b, end)),
        !white_before(b, trimmed_end(b, end)),
        forall|q: int|
            trimmed_end(b, end) <= q < end && #[trigger] boundary(b, q) ==> white(char_at(b, q)),
    decreases end,
{
    lemma_prev_boundary(b, end);
    if white_before(b, end) {
        let p = prev_boundary(b, end);
        lemma_no_boundary_before(b, end);
        lemma_trimmed_back(b, p);
    }
}

proof fn lemma_tag_ending(links: Seq<Link>, end: int, k: int)
    requires
        0 <= k <= links.len(),
    ensures
        ({
            let at = tag_ending_at(links, end, k);
            &&& k <= at <= links.len()
            &&& at < links.len() ==> is_tag_address(links[at].url) && links[at].end == end
            &&& forall|i: int|
                k <= i < at ==> !(is_tag_address((#[trigger] links[i]).url) && links[i].end == end)
        }),
    decreases links.len() - k,
{
    if k < links.len() && !(is_tag_address(links[k].url) && links[k].end == end) {
        lemma_tag_ending(links, end, k + 1);
    }
}

} // verus!
