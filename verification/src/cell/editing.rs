//! Editing a cell: where keys, cuts, pastes and replacements go.
use std::ops::Range;
use vstd::prelude::*;

use crate::text;
use crate::cell::{Cell, CellKind, CellModel, KindModel};
use crate::cell::body::{any_untagged, edit_of, untagged, Replacement, TextOp};
use crate::cell::bullets::{caret_put, texts, texts_mapped, zoomed};
use crate::cell::common::{EditModel, Key, KeyEvent, Link, LinkSpan, Modifiers};
use crate::cell::model::{
    after_key, edit_fits, key_edits, line_count, primary_line, replacing, with_link, TextModel,
};
use crate::cell::outline::pasted_links;
use crate::cell::poppop::PopPopModel;
use crate::cell::reference::ReferenceModel;
use crate::cell::table::{grid_mapped, TableModel};
use crate::ids::{new_id, Uuid};
use crate::text::utf8;

verus! {

/// What an operation makes of a body, whether it was taken, and whether the edit
/// it asks for can be made.
#[verifier::ext_equal]
pub struct KindStep {
    pub m: KindModel,
    pub done: bool,
    pub fits: bool,
}

/// What an operation makes of a cell, whether it was taken, and whether the edit
/// it asks for can be made.
#[verifier::ext_equal]
pub struct CellStep {
    pub m: CellModel,
    pub done: bool,
    pub fits: bool,
}

/// `e` can be made in `t`.
pub open spec fn change_fits(t: TextModel, e: EditModel) -> bool {
    edit_fits(t.doc.text, e) && t.doc.room(e.with.len() as int)
}

/// `s` can be pasted into `t`.
pub open spec fn paste_fits(t: TextModel, s: Seq<u8>) -> bool {
    t.can_apply(t.edits(replacing(s)))
}

impl KindModel {
    /// What a key makes of the body. A reference takes none, so that the host can
    /// step past it.
    pub open spec fn after_key(
        self,
        ev: KeyEvent,
        mods: Modifiers,
        ids: (Uuid, Uuid),
        now: u64,
    ) -> KindStep {
        match self {
            KindModel::Plain(t) => {
                let after = after_key(t, ev, mods, now);
                KindStep {
                    m: KindModel::Plain(after.0),
                    done: after.1,
                    fits: t.can_apply(key_edits(t, ev, mods)),
                }
            },
            KindModel::Outline(o, header) => {
                let step = o.after_key(ev, mods, ids, now);
                KindStep {
                    m: KindModel::Outline(step.m, header),
                    done: step.done,
                    fits: step.fits,
                }
            },
            KindModel::PopPop(p) => {
                let after = after_key(p.input, ev, mods, now);
                KindStep {
                    m: KindModel::PopPop(PopPopModel { input: after.0, ..p }),
                    done: after.1,
                    fits: p.input.can_apply(key_edits(p.input, ev, mods)),
                }
            },
            KindModel::Table(t) => {
                let step = t.after_key(ev, mods, now);
                KindStep {
                    m: KindModel::Table(step.m),
                    done: step.done,
                    fits: step.fits && t.width() > 0 && t.focused.0 < usize::MAX && t.focused.1
                        < usize::MAX,
                }
            },
            KindModel::Reference(_) => KindStep { m: self, done: false, fits: true },
        }
    }

    /// What cutting takes out of the body.
    pub open spec fn cut_out(self) -> Seq<u8> {
        match self {
            KindModel::Plain(t) => t.primary_text(),
            KindModel::Outline(o, _) => o.copied(),
            KindModel::PopPop(p) => p.input.primary_text(),
            KindModel::Table(t) => t.focused_selection(),
            KindModel::Reference(_) => Seq::empty(),
        }
    }

    /// The body after a cut.
    pub open spec fn cut(self, id: Uuid, now: u64) -> KindStep {
        match self {
            KindModel::Plain(t) => KindStep {
                m: KindModel::Plain(t.cut(now)),
                done: true,
                fits: t.doc.room(0),
            },
            KindModel::Outline(o, header) => KindStep {
                m: KindModel::Outline(o.cut(id, now).m, header),
                done: true,
                fits: o.cut(id, now).fits,
            },
            KindModel::PopPop(p) => KindStep {
                m: KindModel::PopPop(PopPopModel { input: p.input.cut(now), ..p }),
                done: true,
                fits: p.input.doc.room(0),
            },
            KindModel::Table(t) => KindStep {
                m: KindModel::Table(t.focused_edited(|t: TextModel| t.cut(now))),
                done: true,
                fits: t.editable() ==> t.focused_text().doc.room(0),
            },
            KindModel::Reference(_) => KindStep { m: self, done: true, fits: true },
        }
    }

    /// The body after `s` is pasted into it, with links.
    pub open spec fn pasted(self, s: Seq<u8>, links: Seq<Link>, id: Uuid, now: u64) -> KindStep {
        match self {
            KindModel::Plain(t) => KindStep {
                m: KindModel::Plain(t.pasted(s, links, now)),
                done: true,
                fits: paste_fits(t, s),
            },
            KindModel::Outline(o, header) => KindStep {
                m: KindModel::Outline(o.pasted(s, links, id, now).m, header),
                done: true,
                fits: o.pasted(s, links, id, now).fits,
            },
            KindModel::PopPop(p) => KindStep {
                m: KindModel::PopPop(PopPopModel { input: p.input.pasted(s, links, now), ..p }),
                done: true,
                fits: paste_fits(p.input, s),
            },
            KindModel::Table(t) => KindStep {
                m: KindModel::Table(t.focused_edited(|t: TextModel| t.pasted(s, links, now))),
                done: true,
                fits: t.editable() ==> paste_fits(t.focused_text(), s),
            },
            KindModel::Reference(_) => KindStep { m: self, done: true, fits: true },
        }
    }

    /// The text that keys go to replaced by `f`, where the body lets it be edited.
    pub open spec fn focus_edited(self, f: spec_fn(TextModel) -> TextModel) -> KindModel {
        match self {
            KindModel::Plain(t) => KindModel::Plain(f(t)),
            KindModel::Outline(o, header) => KindModel::Outline(o.saying_in(o.focused, f), header),
            KindModel::PopPop(p) => KindModel::PopPop(PopPopModel { input: f(p.input), ..p }),
            KindModel::Table(t) => KindModel::Table(t.focused_edited(f)),
            KindModel::Reference(_) => self,
        }
    }

    /// `e` can be made in the text that keys go to, where the body lets it be
    /// edited.
    pub open spec fn focus_edit_fits(self, e: EditModel) -> bool {
        match self {
            KindModel::Plain(t) => change_fits(t, e),
            KindModel::Outline(o, _) => o.edit_fits_in(o.focused, e),
            KindModel::PopPop(p) => change_fits(p.input, e),
            KindModel::Table(t) => t.editable() ==> change_fits(t.focused_text(), e),
            KindModel::Reference(_) => true,
        }
    }

    /// A part of the text that keys go to replaced. In a calculator `#` starts a
    /// note, so no tag goes there.
    pub open spec fn focus_replaced(self, how: Replacement, e: EditModel, now: u64) -> KindModel {
        if self is PopPop && how is Tag {
            self
        } else {
            self.focus_edited(how.on(e, now))
        }
    }

    /// A link attached to the first text of the body.
    pub open spec fn first_linked(self, start: int, end: int, url: Seq<u8>) -> KindModel {
        let f = |t: TextModel|
            t.linking(with_link(t.doc.text, t.doc.links, start, end, url));
        match self {
            KindModel::Plain(t) => KindModel::Plain(f(t)),
            KindModel::Outline(o, header) => KindModel::Outline(
                o.saying(0, f(o.bullets[0].text)),
                header,
            ),
            KindModel::PopPop(p) => KindModel::PopPop(PopPopModel { input: f(p.input), ..p }),
            KindModel::Table(t) => KindModel::Table(t.first_linked(start, end, url)),
            KindModel::Reference(_) => self,
        }
    }

    /// The caret at the start of the body.
    pub open spec fn caret_at_start(self) -> KindModel {
        match self {
            KindModel::Plain(t) => KindModel::Plain(caret_put(t, 0)),
            KindModel::Outline(o, header) => KindModel::Outline(
                o.selecting(None).caret_in(0, 0),
                header,
            ),
            KindModel::PopPop(p) => KindModel::PopPop(
                PopPopModel { input: caret_put(p.input, 0), ..p },
            ),
            KindModel::Table(t) => KindModel::Table(t.caret_at_start()),
            KindModel::Reference(_) => self,
        }
    }

    /// The caret at the end of the body.
    pub open spec fn caret_at_end(self) -> KindModel {
        match self {
            KindModel::Plain(t) => KindModel::Plain(caret_put(t, t.doc.text.len() as int)),
            KindModel::Outline(o, header) => {
                let i = o.bullets.len() - 1;
                KindModel::Outline(
                    o.selecting(None).caret_in(i, o.bullets[i].text.doc.text.len() as int),
                    header,
                )
            },
            KindModel::PopPop(p) => KindModel::PopPop(
                PopPopModel { input: caret_put(p.input, p.input.doc.text.len() as int), ..p },
            ),
            KindModel::Table(t) => KindModel::Table(t.caret_at_end()),
            KindModel::Reference(_) => self,
        }
    }

    /// The body without the tags named `name`. A calculator has none, and the
    /// preview in a reference is not its own.
    pub open spec fn untagged(self, name: Seq<u8>) -> KindModel {
        match self {
            KindModel::Plain(t) => KindModel::Plain(untagged(name)(t)),
            KindModel::Outline(o, header) => KindModel::Outline(
                o.listing(texts_mapped(o.bullets, untagged(name))),
                header,
            ),
            KindModel::Table(t) => KindModel::Table(
                TableModel { cells: grid_mapped(t.cells, untagged(name)), ..t },
            ),
            KindModel::PopPop(_) | KindModel::Reference(_) => self,
        }
    }

    /// Such a tag is in the body.
    pub open spec fn has_tag(self, name: Seq<u8>) -> bool {
        match self {
            KindModel::Plain(t) => untagged(name)(t).doc.links.len() != t.doc.links.len(),
            KindModel::Outline(o, _) => any_untagged(texts(o.bullets), name),
            KindModel::Table(t) => exists|r: int, c: int|
                #![trigger t.cells[r][c]]
                t.holds(r, c) && untagged(name)(t.cells[r][c].text).doc.links.len()
                    != t.cells[r][c].text.doc.links.len(),
            KindModel::PopPop(_) | KindModel::Reference(_) => false,
        }
    }

    /// The body at another zoom.
    pub open spec fn zoomed(self, scale: u32) -> KindModel {
        match self {
            KindModel::Plain(t) => KindModel::Plain(zoomed(t, scale)),
            KindModel::Outline(o, header) => KindModel::Outline(o.zoomed(scale), header),
            KindModel::PopPop(p) => KindModel::PopPop(
                PopPopModel {
                    input: zoomed(p.input, scale),
                    output: zoomed(p.output, scale),
                    ..p
                },
            ),
            KindModel::Table(t) => KindModel::Table(
                TableModel { cells: grid_mapped(t.cells, TextOp::Zoom(scale).on()), scale, ..t },
            ),
            KindModel::Reference(r) => KindModel::Reference(ReferenceModel { scale, ..r }),
        }
    }
}

impl CellModel {
    /// What a key makes of the cell. An arrow up from the top of the body goes to
    /// the end of the title; an arrow down from its last line, and Enter in it, to
    /// the start of the body. Other keys go to where the focus is.
    pub open spec fn after_key(
        self,
        ev: KeyEvent,
        mods: Modifiers,
        ids: (Uuid, Uuid),
        now: u64,
    ) -> CellStep {
        let plain = ev.pressed && !mods.shift && self.title is Some;
        if plain && ev.key is ArrowUp && !self.title_focused && self.kind.at_top() {
            let t = self.title->0;
            CellStep {
                m: CellModel {
                    title: Some(caret_put(t, t.doc.text.len() as int)),
                    title_focused: true,
                    ..self
                },
                done: true,
                fits: true,
            }
        } else if plain && self.title_focused && (ev.key is Enter || ev.key is ArrowDown
            && primary_line(self.title->0) + 1 >= line_count(self.title->0)) {
            let m = self.title_left();
            CellStep { m: m.embodying(m.kind.caret_at_start()), done: true, fits: true }
        } else {
            match self.focused_title() {
                Some(t) => {
                    let after = after_key(t, ev, mods, now);
                    CellStep {
                        m: self.titled(Some(after.0)),
                        done: after.1,
                        fits: t.can_apply(key_edits(t, ev, mods)),
                    }
                },
                None => {
                    let step = self.kind.after_key(ev, mods, ids, now);
                    CellStep {
                        m: CellModel { kind: step.m, title_focused: false, ..self },
                        done: step.done,
                        fits: step.fits,
                    }
                },
            }
        }
    }

    /// What cutting takes out of the cell.
    pub open spec fn cut_out(self) -> Seq<u8> {
        match self.focused_title() {
            Some(t) => t.primary_text(),
            None => self.kind.cut_out(),
        }
    }

    /// The cell after a cut.
    pub open spec fn cut(self, id: Uuid, now: u64) -> CellStep {
        match self.focused_title() {
            Some(t) => CellStep {
                m: self.titled(Some(t.cut(now))),
                done: true,
                fits: t.doc.room(0),
            },
            None => {
                let step = self.kind.cut(id, now);
                CellStep { m: self.embodying(step.m), done: true, fits: step.fits }
            },
        }
    }

    /// The cell after `s` is pasted into it, with links.
    pub open spec fn pasted(self, s: Seq<u8>, links: Seq<Link>, id: Uuid, now: u64) -> CellStep {
        match self.focused_title() {
            Some(t) => CellStep {
                m: self.titled(Some(t.pasted(s, links, now))),
                done: true,
                fits: paste_fits(t, s),
            },
            None => {
                let step = self.kind.pasted(s, links, id, now);
                CellStep { m: self.embodying(step.m), done: true, fits: step.fits }
            },
        }
    }

    /// `e` can be made in the text that has the focus.
    pub open spec fn focus_edit_fits(self, e: EditModel) -> bool {
        if self.title_focused {
            self.title matches Some(t) ==> change_fits(t, e)
        } else {
            self.kind.focus_edit_fits(e)
        }
    }

    /// A part of the text that has the focus replaced.
    pub open spec fn focus_replaced(self, how: Replacement, e: EditModel, now: u64) -> CellModel {
        if self.title_focused {
            match self.title {
                Some(t) => self.titled(Some(how.on(e, now)(t))),
                None => self,
            }
        } else {
            self.embodying(self.kind.focus_replaced(how, e, now))
        }
    }

    /// The caret at the start of where the focus is.
    pub open spec fn caret_at_start(self) -> CellModel {
        match self.focused_title() {
            Some(t) => self.titled(Some(caret_put(t, 0))),
            None => self.embodying(self.kind.caret_at_start()),
        }
    }

    /// The caret at the end of where the focus is.
    pub open spec fn caret_at_end(self) -> CellModel {
        match self.focused_title() {
            Some(t) => self.titled(Some(caret_put(t, t.doc.text.len() as int))),
            None => self.embodying(self.kind.caret_at_end()),
        }
    }

    /// The cell without the tags named `name`.
    pub open spec fn untagged(self, name: Seq<u8>) -> CellModel {
        CellModel {
            title: match self.title {
                Some(t) => Some(untagged(name)(t)),
                None => None,
            },
            kind: self.kind.untagged(name),
            ..self
        }
    }

    /// Such a tag is in the cell.
    pub open spec fn has_tag(self, name: Seq<u8>) -> bool {
        (self.title matches Some(t) && untagged(name)(t).doc.links.len() != t.doc.links.len())
            || self.kind.has_tag(name)
    }

    /// The cell at another zoom.
    pub open spec fn zoomed(self, scale: u32) -> CellModel {
        CellModel {
            title: match self.title {
                Some(t) => Some(zoomed(t, scale)),
                None => None,
            },
            kind: self.kind.zoomed(scale),
            ..self
        }
    }
}

impl CellKind {
    fn handle_key_with(
        &mut self,
        event: &KeyEvent,
        mods: Modifiers,
        a: Uuid,
        b: Uuid,
        now: u64,
    ) -> (r: bool)
        requires
            old(self).model().wf(),
            old(self).model().after_key(*event, mods, (a, b), now).fits,
        ensures
            final(self).model() == old(self).model().after_key(*event, mods, (a, b), now).m,
            r == old(self).model().after_key(*event, mods, (a, b), now).done,
            final(self).model().wf(),
    {
        match self {
            CellKind::Plain(p) => p.body_mut().handle_key(event, mods, now),
            CellKind::Outline(o) => o.handle_key_with(event, mods, a, b, now),
            CellKind::PopPop(p) => p.handle_key(event, mods, now),
            CellKind::Table(t) => t.handle_key(event, mods, now),
            CellKind::Reference(_) => false,
        }
    }

    fn cut_text_with(&mut self, id: Uuid, now: u64) -> (s: String)
        requires
            old(self).model().wf(),
            old(self).model().cut(id, now).fits,
        ensures
            utf8(s@) == old(self).model().cut_out(),
            final(self).model() == old(self).model().cut(id, now).m,
            final(self).model().wf(),
    {
        match self {
            CellKind::Plain(p) => p.body_mut().cut_primary_selection(now),
            CellKind::Outline(o) => o.cut_text_with(id, now),
            CellKind::PopPop(p) => p.textbox_mut().cut_primary_selection(now),
            CellKind::Table(t) => t.cut_focused(now),
            CellKind::Reference(_) => {
                let none = String::new();
                assert(utf8(none@) =~= Seq::<u8>::empty());
                none
            },
        }
    }

    fn paste_with_links_and_id(&mut self, s: &str, links: &Vec<LinkSpan>, id: Uuid, now: u64)
        requires
            old(self).model().wf(),
            old(self).model().pasted(utf8(s@), pasted_links(s@, links@), id, now).fits,
        ensures
            final(self).model() == old(self).model().pasted(
                utf8(s@),
                pasted_links(s@, links@),
                id,
                now,
            ).m,
            final(self).model().wf(),
    {
        match self {
            CellKind::Plain(p) => p.body_mut().paste_with_links(s, links, now),
            CellKind::Outline(o) => o.paste_with_links_and_id(s, links, id, now),
            CellKind::PopPop(p) => p.textbox_mut().paste_with_links(s, links, now),
            CellKind::Table(t) => t.paste_focused_with_links(s, links, now),
            CellKind::Reference(_) => {},
        }
    }

    fn replace_focused(&mut self, range: Range<usize>, text: String, how: Replacement, now: u64)
        requires
            old(self).model().wf(),
            !(old(self).model() is PopPop && how is Tag) ==> old(self).model().focus_edit_fits(
                edit_of(range, text),
            ),
        ensures
            final(self).model() == old(self).model().focus_replaced(
                how,
                edit_of(range, text),
                now,
            ),
            final(self).model().wf(),
    {
        match self {
            CellKind::Plain(p) => how.run(p.body_mut(), range, text, now),
            CellKind::Outline(o) => {
                let id: Uuid = o.focused_bullet_id();
                match how {
                    Replacement::Text => o.replace_in_bullet_with_text(id, range, text, now),
                    Replacement::Link(url) => o.replace_in_bullet_with_link(
                        id,
                        range,
                        text,
                        url,
                        now,
                    ),
                    Replacement::Tag => o.replace_in_bullet_with_tag(id, range, text, now),
                }
            },
            CellKind::PopPop(p) => match how {
                Replacement::Tag => {},
                _ => how.run(p.textbox_mut(), range, text, now),
            },
            CellKind::Table(t) => t.replace_focused(range, text, how, now),
            CellKind::Reference(_) => {},
        }
    }

    fn add_link_to_first(&mut self, range: Range<usize>, url: String)
        requires
            old(self).model().wf(),
        ensures
            final(self).model() == old(self).model().first_linked(
                range.start as int,
                range.end as int,
                utf8(url@),
            ),
            final(self).model().wf(),
    {
        match self {
            CellKind::Plain(p) => p.body_mut().add_link(range, url),
            CellKind::Outline(o) => o.add_link_to_first(range, url),
            CellKind::PopPop(p) => p.textbox_mut().add_link(range, url),
            CellKind::Table(t) => t.add_link_to_first(range, url),
            CellKind::Reference(_) => {},
        }
    }

    fn place_caret_at_start(&mut self)
        requires
            old(self).model().wf(),
        ensures
            final(self).model() == old(self).model().caret_at_start(),
            final(self).model().wf(),
    {
        match self {
            CellKind::Plain(p) => p.body_mut().set_caret_at(0),
            CellKind::Outline(o) => o.place_caret_at_start(),
            CellKind::PopPop(p) => p.textbox_mut().set_caret_at(0),
            CellKind::Table(t) => t.place_caret_at_start(),
            CellKind::Reference(_) => {},
        }
    }

    fn place_caret_at_end(&mut self)
        requires
            old(self).model().wf(),
        ensures
            final(self).model() == old(self).model().caret_at_end(),
            final(self).model().wf(),
    {
        match self {
            CellKind::Plain(p) => {
                let end: usize = text::len(p.body().text());
                p.body_mut().set_caret_at(end);
            },
            CellKind::Outline(o) => o.place_caret_at_end(),
            CellKind::PopPop(p) => {
                let end: usize = text::len(p.textbox().text());
                p.textbox_mut().set_caret_at(end);
            },
            CellKind::Table(t) => t.place_caret_at_end(),
            CellKind::Reference(_) => {},
        }
    }

    fn remove_tags_named(&mut self, name: &str) -> (r: bool)
        requires
            old(self).model().wf(),
        ensures
            final(self).model() == old(self).model().untagged(utf8(name@)),
            r == old(self).model().has_tag(utf8(name@)),
            final(self).model().wf(),
    {
        match self {
            CellKind::Plain(p) => p.body_mut().remove_tags_named(name),
            CellKind::Outline(o) => o.remove_tags_named(name),
            CellKind::Table(t) => {
                let ghost g = t@.cells;
                let ghost before = t@;
                let op = TextOp::Untag(text::copy(name));
                let any: bool = t.run_on_all(&op);
                proof {
                    let f = untagged(utf8(name@));
                    assert(op.on() == f);
                    if any {
                        let (r, c) = choose|r: int, c: int|
                            #![trigger g[r][c]]
                            before.holds(r, c) && op.tells(g[r][c].text);
                        assert(f(g[r][c].text).doc.links.len() != g[r][c].text.doc.links.len());
                    }
                    assert forall|r: int, c: int|
                        #![trigger g[r][c]]
                        before.holds(r, c) && f(g[r][c].text).doc.links.len()
                            != g[r][c].text.doc.links.len() implies any by {
                        assert(op.tells(g[r][c].text));
                    }
                }
                any
            },
            CellKind::PopPop(_) | CellKind::Reference(_) => false,
        }
    }

    fn set_font_scale(&mut self, scale: u32)
        requires
            old(self).model().wf(),
        ensures
            final(self).model() == old(self).model().zoomed(scale),
            final(self).model().wf(),
    {
        match self {
            CellKind::Plain(p) => p.body_mut().set_font_scale(scale),
            CellKind::Outline(o) => o.set_font_scale(scale),
            CellKind::PopPop(p) => p.set_font_scale(scale),
            CellKind::Table(t) => t.set_font_scale(scale),
            CellKind::Reference(r) => r.set_font_scale(scale),
        }
    }
}

impl Cell {
    /// Hands a key to the cell; new bullets get the ids `a` and `b`. Returns
    /// whether it was taken.
    pub fn handle_key_with(
        &mut self,
        event: &KeyEvent,
        mods: Modifiers,
        a: Uuid,
        b: Uuid,
        now: u64,
    ) -> (r: bool)
        requires
            old(self).model().wf(),
            old(self).model().after_key(*event, mods, (a, b), now).fits,
        ensures
            final(self).model() == old(self).model().after_key(*event, mods, (a, b), now).m,
            r == old(self).model().after_key(*event, mods, (a, b), now).done,
            final(self).model().wf(),
    {
        if event.pressed && !mods.shift {
            if let Some(t) = &self.title {
                let crosses_up: bool = match event.key {
                    Key::ArrowUp => !self.title_focused && self.kind.at_top_edge(),
                    _ => false,
                };
                let crosses_down: bool = self.title_focused && match event.key {
                    Key::Enter => true,
                    Key::ArrowDown => t.at_bottom_visual_line(),
                    _ => false,
                };
                if crosses_up {
                    self.title_focused = true;
                    self.place_caret_at_end_of_title();
                    return true;
                }
                if crosses_down {
                    self.unfocus_title_drop_if_empty();
                    self.kind.place_caret_at_start();
                    return true;
                }
            }
        }
        if self.title_focused {
            if let Some(t) = self.title.as_mut() {
                return t.handle_key(event, mods, now);
            }
            self.title_focused = false;
        }
        self.kind.handle_key_with(event, mods, a, b, now)
    }

    fn place_caret_at_end_of_title(&mut self)
        requires
            old(self).model().wf(),
        ensures
            final(self).model() == (match old(self).model().title {
                Some(t) => old(self).model().titled(Some(caret_put(t, t.doc.text.len() as int))),
                None => old(self).model(),
            }),
            final(self).model().wf(),
    {
        if let Some(t) = self.title.as_mut() {
            let end: usize = text::len(t.text());
            t.set_caret_at(end);
        }
    }

    /// Hands a key to the cell. Returns whether it was taken.
    pub fn handle_key(&mut self, event: &KeyEvent, mods: Modifiers, now: u64) -> (r: bool)
        requires
            old(self).model().wf(),
            forall|ids: (Uuid, Uuid)|
                (#[trigger] old(self).model().after_key(*event, mods, ids, now)).fits,
        ensures
            exists|ids: (Uuid, Uuid)|
                {
                    let step = #[trigger] old(self).model().after_key(*event, mods, ids, now);
                    final(self).model() == step.m && r == step.done
                },
            final(self).model().wf(),
    {
        let a: Uuid = new_id();
        let b: Uuid = new_id();
        assert(old(self).model().after_key(*event, mods, (a, b), now).fits);
        let r: bool = self.handle_key_with(event, mods, a, b, now);
        assert(old(self).model().after_key(*event, mods, (a, b), now).m == self.model());
        r
    }

    /// Cuts what is selected where the focus is; a bullet that is then needed gets
    /// the id `id`.
    pub fn cut_text_with(&mut self, id: Uuid, now: u64) -> (s: String)
        requires
            old(self).model().wf(),
            old(self).model().cut(id, now).fits,
        ensures
            utf8(s@) == old(self).model().cut_out(),
            final(self).model() == old(self).model().cut(id, now).m,
            final(self).model().wf(),
    {
        if self.title_focused {
            if let Some(t) = self.title.as_mut() {
                return t.cut_primary_selection(now);
            }
        }
        self.kind.cut_text_with(id, now)
    }

    /// Cuts what is selected where the focus is.
    pub fn cut_text(&mut self, now: u64) -> (s: String)
        requires
            old(self).model().wf(),
            forall|id: Uuid| (#[trigger] old(self).model().cut(id, now)).fits,
        ensures
            utf8(s@) == old(self).model().cut_out(),
            exists|id: Uuid| final(self).model() == (#[trigger] old(self).model().cut(id, now)).m,
            final(self).model().wf(),
    {
        let id: Uuid = new_id();
        assert(old(self).model().cut(id, now).fits);
        let s = self.cut_text_with(id, now);
        assert(old(self).model().cut(id, now).m == self.model());
        s
    }

    /// Pastes where the focus is, with links; a bullet that is then needed gets the
    /// id `id`.
    pub fn paste_with_links_and_id(&mut self, s: &str, links: &Vec<LinkSpan>, id: Uuid, now: u64)
        requires
            old(self).model().wf(),
            old(self).model().pasted(utf8(s@), pasted_links(s@, links@), id, now).fits,
        ensures
            final(self).model() == old(self).model().pasted(
                utf8(s@),
                pasted_links(s@, links@),
                id,
                now,
            ).m,
            final(self).model().wf(),
    {
        if self.title_focused {
            if let Some(t) = self.title.as_mut() {
                t.paste_with_links(s, links, now);
                return ;
            }
        }
        self.kind.paste_with_links_and_id(s, links, id, now);
    }

    /// Pastes where the focus is, with links.
    pub fn paste_into_focused_with_links(&mut self, s: &str, links: &Vec<LinkSpan>, now: u64)
        requires
            old(self).model().wf(),
            forall|id: Uuid|
                (#[trigger] old(self).model().pasted(
                    utf8(s@),
                    pasted_links(s@, links@),
                    id,
                    now,
                )).fits,
        ensures
            exists|id: Uuid|
                final(self).model() == (#[trigger] old(self).model().pasted(
                    utf8(s@),
                    pasted_links(s@, links@),
                    id,
                    now,
                )).m,
            final(self).model().wf(),
    {
        let id: Uuid = new_id();
        assert(old(self).model().pasted(utf8(s@), pasted_links(s@, links@), id, now).fits);
        self.paste_with_links_and_id(s, links, id, now);
        assert(old(self).model().pasted(utf8(s@), pasted_links(s@, links@), id, now).m
            == self.model());
    }

    fn replace_focused(&mut self, range: Range<usize>, text: String, how: Replacement, now: u64)
        requires
            old(self).model().wf(),
            !(!old(self).title_focused && old(self).model().kind is PopPop && how is Tag)
                ==> old(self).model().focus_edit_fits(edit_of(range, text)),
        ensures
            final(self).model() == old(self).model().focus_replaced(
                how,
                edit_of(range, text),
                now,
            ),
            final(self).model().wf(),
    {
        if self.title_focused {
            if let Some(t) = self.title.as_mut() {
                how.run(t, range, text, now);
            }
            return ;
        }
        self.kind.replace_focused(range, text, how, now);
    }

    /// Replaces a part of the text that has the focus by `text`, which links to
    /// `url`.
    pub fn replace_focused_with_link(
        &mut self,
        range: Range<usize>,
        text: String,
        url: String,
        now: u64,
    )
        requires
            old(self).model().wf(),
            old(self).model().focus_edit_fits(edit_of(range, text)),
        ensures
            final(self).model() == old(self).model().focus_replaced(
                Replacement::Link(url),
                edit_of(range, text),
                now,
            ),
            final(self).model().wf(),
    {
        self.replace_focused(range, text, Replacement::Link(url), now);
    }

    /// Replaces a part of the text that has the focus by `text`.
    pub fn replace_focused_with_text(&mut self, range: Range<usize>, text: String, now: u64)
        requires
            old(self).model().wf(),
            old(self).model().focus_edit_fits(edit_of(range, text)),
        ensures
            final(self).model() == old(self).model().focus_replaced(
                Replacement::Text,
                edit_of(range, text),
                now,
            ),
            final(self).model().wf(),
    {
        self.replace_focused(range, text, Replacement::Text, now);
    }

    /// Replaces a part of the text that has the focus by `text`, a tag with its
    /// `#`. In a calculator nothing happens.
    pub fn replace_focused_with_tag(&mut self, range: Range<usize>, text: String, now: u64)
        requires
            old(self).model().wf(),
            !(!old(self).model().title_focused && old(self).model().kind is PopPop)
                ==> old(self).model().focus_edit_fits(edit_of(range, text)),
        ensures
            final(self).model() == old(self).model().focus_replaced(
                Replacement::Tag,
                edit_of(range, text),
                now,
            ),
            final(self).model().wf(),
    {
        self.replace_focused(range, text, Replacement::Tag, now);
    }

    /// Attaches a link to the first text of the body.
    pub fn add_link_to_first(&mut self, range: Range<usize>, url: String)
        requires
            old(self).model().wf(),
        ensures
            final(self).model() == old(self).model().embodying(
                old(self).model().kind.first_linked(
                    range.start as int,
                    range.end as int,
                    utf8(url@),
                ),
            ),
            final(self).model().wf(),
    {
        self.kind.add_link_to_first(range, url);
    }

    /// Puts the caret at the start of where the focus is.
    pub fn place_caret_at_start(&mut self)
        requires
            old(self).model().wf(),
        ensures
            final(self).model() == old(self).model().caret_at_start(),
            final(self).model().wf(),
    {
        if self.title_focused {
            if let Some(t) = self.title.as_mut() {
                t.set_caret_at(0);
                return ;
            }
        }
        self.kind.place_caret_at_start();
    }

    /// Puts the caret at the end of where the focus is.
    pub fn place_caret_at_end(&mut self)
        requires
            old(self).model().wf(),
        ensures
            final(self).model() == old(self).model().caret_at_end(),
            final(self).model().wf(),
    {
        if self.title_focused && self.title.is_some() {
            self.place_caret_at_end_of_title();
            return ;
        }
        self.kind.place_caret_at_end();
    }

    /// Removes the tags named `name`, letter case aside. Returns whether there was
    /// one.
    pub fn remove_tags_named(&mut self, name: &str) -> (r: bool)
        requires
            old(self).model().wf(),
        ensures
            final(self).model() == old(self).model().untagged(utf8(name@)),
            r == old(self).model().has_tag(utf8(name@)),
            final(self).model().wf(),
    {
        let mut changed: bool = false;
        if let Some(t) = self.title.as_mut() {
            changed = t.remove_tags_named(name);
        }
        let below: bool = self.kind.remove_tags_named(name);
        changed || below
    }

    /// Sets the zoom factor of the title and the body.
    pub fn set_font_scale(&mut self, scale: u32)
        requires
            old(self).model().wf(),
        ensures
            final(self).model() == old(self).model().zoomed(scale),
            final(self).model().wf(),
    {
        if let Some(t) = self.title.as_mut() {
            t.set_font_scale(scale);
        }
        self.kind.set_font_scale(scale);
    }
}

} // verus!
