//! What holds of all texts of a cell body alike: their links and tags.
use std::ops::Range;
use vstd::prelude::*;

use crate::text;
use crate::cell::bullets::zoomed;
use crate::cell::common::{tag_scheme, EditModel, Link};
use crate::cell::model::{after_mouse_up, collapsed, edit_fits, keeps_link, without_tag, TextModel};
use crate::cell::textbox::{bytes_of, TextBox};
use crate::text::{utf8, views};

verus! {

/// The addresses of `links`.
pub open spec fn urls_of(links: Seq<Link>) -> Seq<Seq<u8>> {
    links.map_values(|l: Link| l.url)
}

/// The addresses of all links in the first `n` texts, in order.
pub open spec fn link_urls(ts: Seq<TextModel>, n: int) -> Seq<Seq<u8>>
    decreases n,
{
    if n <= 0 {
        Seq::empty()
    } else {
        link_urls(ts, n - 1) + urls_of(ts[n - 1].doc.links)
    }
}

/// `names` and the tags of the first `n` texts, each once, in order.
pub open spec fn tag_names(names: Seq<Seq<u8>>, ts: Seq<TextModel>, n: int) -> Seq<Seq<u8>>
    decreases n,
{
    if n <= 0 {
        names
    } else {
        ts[n - 1].tags_behind(tag_names(names, ts, n - 1))
    }
}

/// A text without the tag `name`.
pub open spec fn untagged(name: Seq<u8>) -> spec_fn(TextModel) -> TextModel {
    |t: TextModel| t.linking(without_tag(t.doc.text, t.doc.links, name))
}

/// One of the texts carries the tag `name`.
pub open spec fn any_untagged(ts: Seq<TextModel>, name: Seq<u8>) -> bool {
    exists|j: int|
        0 <= j < ts.len() && untagged(name)(#[trigger] ts[j]).doc.links.len()
            != ts[j].doc.links.len()
}

/// Removing a tag leaves no link that marks it on a part of the text.
pub proof fn removed_tags_are_gone(t: TextModel, name: Seq<u8>, i: int)
    requires
        0 <= i < untagged(name)(t).doc.links.len(),
    ensures
        ({
            let l = untagged(name)(t).doc.links[i];
            l.url == tag_scheme() + name ==> l.end > t.doc.text.len() || l.start >= l.end
        }),
{
    let keep = keeps_link(t.doc.text, name);
    broadcast use vstd::seq_lib::group_filter_ensures;

    assert(keep(t.doc.links.filter(keep)[i]));
}

/// Puts the addresses of all links of `tb` behind `out`.
pub fn push_link_urls(tb: &TextBox, out: &mut Vec<String>)
    ensures
        bytes_of(final(out)@) == bytes_of(old(out)@) + urls_of(tb@.doc.links),
{
    let links = tb.links();
    let ghost ls = views(links@);
    let ghost start = bytes_of(out@);
    let mut i: usize = 0;
    assert(start + urls_of(ls.subrange(0, 0)) =~= start);
    while i < links.len()
        invariant
            i <= links.len(),
            ls == views(links@),
            bytes_of(out@) == start + urls_of(ls.subrange(0, i as int)),
        decreases links.len() - i,
    {
        let ghost held = out@;
        assert(ls[i as int] == links@[i as int]@);
        out.push(text::copy(links[i].url.as_str()));
        proof {
            assert(bytes_of(out@) =~= bytes_of(held).push(ls[i as int].url));
            assert(urls_of(ls.subrange(0, i + 1)) =~= urls_of(ls.subrange(0, i as int)).push(
                ls[i as int].url,
            ));
            assert(bytes_of(out@) =~= start + urls_of(ls.subrange(0, i + 1)));
        }
        i += 1;
    }
    assert(ls.subrange(0, i as int) =~= ls);
}

/// What is done to every text of a body alike.
pub enum TextOp {
    /// Another zoom.
    Zoom(u32),
    /// The end of a drag.
    Release,
    /// Selections collapsed.
    Collapse,
    /// A tag removed.
    Untag(String),
}

impl TextOp {
    /// What the operation makes of a text.
    pub open spec fn on(self) -> spec_fn(TextModel) -> TextModel {
        match self {
            TextOp::Zoom(scale) => |t: TextModel| zoomed(t, scale),
            TextOp::Release => |t: TextModel| after_mouse_up(t),
            TextOp::Collapse => |t: TextModel| collapsed(t),
            TextOp::Untag(name) => untagged(utf8(name@)),
        }
    }

    /// The operation tells that it did something: a drag ended, a tag was there.
    pub open spec fn tells(self, t: TextModel) -> bool {
        match self {
            TextOp::Release => t.drag is Some,
            TextOp::Untag(name) => untagged(utf8(name@))(t).doc.links.len() != t.doc.links.len(),
            _ => false,
        }
    }

    /// Does the operation. Returns whether it did something worth telling.
    pub fn run(&self, tb: &mut TextBox) -> (r: bool)
        requires
            old(tb)@.wf(),
        ensures
            final(tb)@ == self.on()(old(tb)@),
            r == self.tells(old(tb)@),
            final(tb)@.wf(),
    {
        match self {
            TextOp::Zoom(scale) => {
                tb.set_font_scale(*scale);
                false
            },
            TextOp::Release => tb.mouse_up(),
            TextOp::Collapse => {
                tb.clear_selection();
                false
            },
            TextOp::Untag(name) => tb.remove_tags_named(name.as_str()),
        }
    }
}

/// What a text that replaces a part of another one is to be.
pub enum Replacement {
    /// Text, and no more.
    Text,
    /// A link to an address.
    Link(String),
    /// A tag.
    Tag,
}

impl Replacement {
    /// What the replacement makes of a text.
    pub open spec fn on(self, e: EditModel, now: u64) -> spec_fn(TextModel) -> TextModel {
        match self {
            Replacement::Text => |t: TextModel| t.replaced_range(e, now),
            Replacement::Link(url) => |t: TextModel| t.replaced_by_link(e, utf8(url@), now),
            Replacement::Tag => |t: TextModel| t.replaced_by_tag(e, now),
        }
    }

    /// Replaces `range` of a text by `text`.
    pub fn run(self, tb: &mut TextBox, range: Range<usize>, text: String, now: u64)
        requires
            old(tb)@.wf(),
            edit_fits(old(tb)@.doc.text, edit_of(range, text)),
            old(tb)@.doc.room(utf8(text@).len() as int),
        ensures
            final(tb)@ == self.on(edit_of(range, text), now)(old(tb)@),
            final(tb)@.wf(),
    {
        match self {
            Replacement::Text => tb.replace_with_text(range, text, now),
            Replacement::Link(url) => tb.replace_with_link(range, text, url, now),
            Replacement::Tag => tb.replace_with_tag(range, text, now),
        }
    }
}

/// The edit that replaces `range` by `text`.
pub open spec fn edit_of(range: Range<usize>, text: String) -> EditModel {
    EditModel { start: range.start as int, end: range.end as int, with: utf8(text@) }
}

} // verus!
