//! The mouse on a cell, and what is selected in it. The host knows where things
//! are drawn; it tells which text the pointer is on, and where in it.
use vstd::prelude::*;

use crate::cell::{Cell, CellKind, CellModel, KindModel};
use crate::cell::body::TextOp;
use crate::cell::bullets::{texts, DragMode};
use crate::cell::common::{Link, LinkSpan, Modifiers};
use crate::cell::model::{
    after_drag, after_mouse_down, collapsed, drag_fits, lemma_collapsed_wf, link_under, placed,
    primary_ends, Click, TextModel,
};
use crate::cell::outline::{Bullet, OutlineCell};
use crate::cell::poppop::PopPopModel;
use crate::cell::reference::{EmbeddedReference, EmbedModel, ReferenceModel};
use crate::cell::table::{grid_first, grid_mapped, row_first, EntryModel};
use crate::cell::textbox::picked_view;
use crate::text::{boundary, views};

verus! {

/// A place in a cell: where the pointer is, or, of a drag, where in the text that holds the
/// drag the pointer would hit, however far away it is.
pub enum Spot {
    /// On the title.
    Title(Click),
    /// On the text of a plain body, or what is typed into a calculator.
    Text(Click),
    /// On the bullet of that index.
    Bullet(usize, Click),
    /// On the entry of that row and column.
    Entry(usize, usize, Click),
    /// On the answers of a calculator.
    Output(Click),
    /// On the preview of another cell.
    Preview(Box<Spot>),
    /// On none of these.
    Elsewhere,
}

impl EmbedModel {
    /// The spot is in the preview.
    pub open spec fn holds_spot(self, spot: Spot) -> bool
        decreases spot, 3int,
    {
        self.cache matches Some(c) ==> (*c).holds_spot(spot)
    }

    /// A press of the mouse button in the preview, which can only be read.
    pub open spec fn pressed(self, spot: Spot, mods: Modifiers) -> EmbedModel
        decreases spot, 3int,
    {
        match self.cache {
            Some(c) => EmbedModel {
                cache: Some(Box::new((*c).pressed(spot, mods, false))),
                ..self
            },
            None => self,
        }
    }

    /// What the spot lies in, in the preview, holds a drag.
    pub open spec fn holds_drag(self, spot: Spot) -> bool
        decreases spot, 3int,
    {
        self.cache matches Some(c) && (*c).holds_drag(spot)
    }

    /// A drag to the spot can be followed.
    pub open spec fn drag_fits(self, spot: Spot) -> bool
        decreases spot, 3int,
    {
        self.cache matches Some(c) ==> (*c).drag_fits(spot)
    }

    /// A drag in the preview.
    pub open spec fn dragged(self, spot: Spot) -> EmbedModel
        decreases spot, 3int,
    {
        match self.cache {
            Some(c) => EmbedModel { cache: Some(Box::new((*c).dragged(spot))), ..self },
            None => self,
        }
    }

    /// A link is under the pointer.
    pub open spec fn links_at(self, spot: Spot) -> bool
        decreases spot, 3int,
    {
        self.cache matches Some(c) && (*c).links_at(spot)
    }

    /// What is selected first in the texts of the preview.
    pub open spec fn picked(self) -> Option<(Seq<u8>, Seq<Link>)>
        decreases self,
    {
        match self.cache {
            Some(c) => match c.title {
                Some(t) if t.picked() is Some => t.picked(),
                _ => c.kind.picked(),
            },
            None => None,
        }
    }

    /// A text of the preview has a selection.
    pub open spec fn text_selected(self) -> bool
        decreases self,
    {
        self.cache matches Some(c) && ((c.title matches Some(t) && t.has_selection())
            || c.kind.text_selected())
    }
}

/// The first of `ts`, from `k` on, that has anything selected: what it is.
pub open spec fn first_picked(ts: Seq<TextModel>, k: int) -> Option<(Seq<u8>, Seq<Link>)>
    decreases ts.len() - k,
{
    if k < 0 || k >= ts.len() {
        None
    } else if ts[k].picked() is Some {
        ts[k].picked()
    } else {
        first_picked(ts, k + 1)
    }
}

impl KindModel {
    /// The spot is in the body: the text is there, and the place in it.
    pub open spec fn holds_spot(self, spot: Spot) -> bool
        decreases spot, 1int,
    {
        match (self, spot) {
            (KindModel::Plain(t), Spot::Text(click)) => boundary(t.doc.text, click.idx as int),
            (KindModel::Outline(o, _), Spot::Bullet(i, click)) => i < o.bullets.len() && boundary(
                o.bullets[i as int].text.doc.text,
                click.idx as int,
            ),
            (KindModel::Outline(_, header), Spot::Preview(inner)) => header matches Some(h) && h.holds_spot(*inner),
            (KindModel::PopPop(p), Spot::Text(click)) => boundary(
                p.input.doc.text,
                click.idx as int,
            ),
            (KindModel::PopPop(p), Spot::Output(click)) => boundary(
                p.output.doc.text,
                click.idx as int,
            ),
            (KindModel::Table(t), Spot::Entry(r, c, click)) => t.holds(r as int, c as int)
                && boundary(t.cells[r as int][c as int].text.doc.text, click.idx as int),
            (KindModel::Reference(r), Spot::Preview(inner)) => r.head.holds_spot(*inner),
            _ => true,
        }
    }

    /// A press of the mouse button there. What lies outside the spot loses its
    /// selections.
    pub open spec fn pressed(self, spot: Spot, mods: Modifiers, editing: bool) -> KindModel
        decreases spot, 1int,
    {
        match (self, spot) {
            (KindModel::Plain(t), Spot::Text(click)) => KindModel::Plain(
                after_mouse_down(t, click, mods, editing),
            ),
            (KindModel::Outline(o, header), Spot::Bullet(i, click)) => KindModel::Outline(
                o.pressed_in_bullet(i as int, click, mods, editing),
                match header {
                    Some(h) => Some(h.all_collapsed()),
                    None => None,
                },
            ),
            (KindModel::Outline(o, header), Spot::Preview(inner)) => KindModel::Outline(
                o.pressed_in_header(),
                match header {
                    Some(h) => Some(h.pressed(*inner, mods)),
                    None => None,
                },
            ),
            (KindModel::PopPop(p), Spot::Text(click)) => KindModel::PopPop(
                p.pressed_left(click, mods, editing),
            ),
            (KindModel::PopPop(p), Spot::Output(click)) => KindModel::PopPop(
                p.pressed_right(click, mods),
            ),
            (KindModel::Table(t), Spot::Entry(r, c, click)) => KindModel::Table(
                t.pressed(r, c, click, mods, editing),
            ),
            (KindModel::Reference(r), Spot::Preview(inner)) => KindModel::Reference(
                ReferenceModel { head: r.head.pressed(*inner, mods), ..r },
            ),
            _ => self,
        }
    }

    /// The body takes a press there. A reference takes any.
    pub open spec fn takes_press(self, spot: Spot) -> bool {
        match (self, spot) {
            (KindModel::Plain(_), Spot::Text(_)) => true,
            (KindModel::Outline(..), Spot::Bullet(..)) => true,
            (KindModel::Outline(..), Spot::Preview(_)) => true,
            (KindModel::PopPop(_), Spot::Text(_)) => true,
            (KindModel::PopPop(_), Spot::Output(_)) => true,
            (KindModel::Table(_), Spot::Entry(..)) => true,
            (KindModel::Reference(_), _) => true,
            _ => false,
        }
    }

    /// What the spot lies in holds a drag: the text, all the bullets of an outline
    /// together, or the preview.
    pub open spec fn holds_drag(self, spot: Spot) -> bool
        decreases spot, 1int,
    {
        match (self, spot) {
            (KindModel::Plain(t), Spot::Text(_)) => t.drag is Some,
            (KindModel::Outline(o, _), Spot::Bullet(..)) => o.drag matches Some(d) && d.mode
                != DragMode::Header,
            (KindModel::Outline(o, header), Spot::Preview(inner)) => {
                &&& o.drag matches Some(d) && d.mode == DragMode::Header
                &&& header matches Some(h) && h.holds_drag(*inner)
            },
            (KindModel::PopPop(p), Spot::Text(_)) => p.input.drag is Some,
            (KindModel::PopPop(p), Spot::Output(_)) => p.output.drag is Some,
            (KindModel::Table(t), Spot::Entry(r, c, _)) => t.holds(r as int, c as int)
                && t.cells[r as int][c as int].text.drag is Some,
            (KindModel::Reference(r), Spot::Preview(inner)) => r.head.holds_drag(*inner),
            _ => false,
        }
    }

    /// A drag to the spot can be followed.
    pub open spec fn drag_fits(self, spot: Spot) -> bool
        decreases spot, 1int,
    {
        match (self, spot) {
            (KindModel::Plain(t), Spot::Text(_)) => drag_fits(t),
            (KindModel::Outline(o, _), Spot::Bullet(i, click)) => o.drag_fits(i as int, click.idx),
            (KindModel::Outline(_, header), Spot::Preview(inner)) => header matches Some(h)
                ==> h.drag_fits(*inner),
            (KindModel::PopPop(p), Spot::Text(_)) => drag_fits(p.input),
            (KindModel::PopPop(p), Spot::Output(_)) => drag_fits(p.output),
            (KindModel::Table(t), Spot::Entry(r, c, _)) => drag_fits(
                t.cells[r as int][c as int].text,
            ),
            (KindModel::Reference(r), Spot::Preview(inner)) => r.head.drag_fits(*inner),
            _ => true,
        }
    }

    /// A drag there. Only what a drag started in follows it.
    pub open spec fn dragged(self, spot: Spot) -> KindModel
        decreases spot, 1int,
    {
        match (self, spot) {
            (KindModel::Plain(t), Spot::Text(click)) => KindModel::Plain(
                after_drag(t, click.idx, click.affinity),
            ),
            (KindModel::Outline(o, header), Spot::Bullet(i, click)) => KindModel::Outline(
                o.dragged(i as int, click.idx, click.affinity),
                header,
            ),
            (KindModel::Outline(o, header), Spot::Preview(inner)) => match (o.drag, header) {
                (Some(d), Some(h)) => if d.mode == DragMode::Header {
                    KindModel::Outline(o, Some(h.dragged(*inner)))
                } else {
                    self
                },
                _ => self,
            },
            (KindModel::PopPop(p), Spot::Text(click)) => KindModel::PopPop(
                PopPopModel { input: after_drag(p.input, click.idx, click.affinity), ..p },
            ),
            (KindModel::PopPop(p), Spot::Output(click)) => KindModel::PopPop(
                PopPopModel { output: after_drag(p.output, click.idx, click.affinity), ..p },
            ),
            (KindModel::Table(t), Spot::Entry(r, c, click)) => KindModel::Table(
                t.saying(
                    r as int,
                    c as int,
                    after_drag(t.cells[r as int][c as int].text, click.idx, click.affinity),
                ),
            ),
            (KindModel::Reference(r), Spot::Preview(inner)) => KindModel::Reference(
                ReferenceModel { head: r.head.dragged(*inner), ..r },
            ),
            _ => self,
        }
    }

    /// A link is under the pointer.
    pub open spec fn links_at(self, spot: Spot) -> bool
        decreases spot, 1int,
    {
        match (self, spot) {
            (KindModel::Plain(t), Spot::Text(click)) => link_under(
                t.doc.links,
                click.idx as int,
            ) is Some,
            (KindModel::Outline(o, _), Spot::Bullet(i, click)) => link_under(
                o.bullets[i as int].text.doc.links,
                click.idx as int,
            ) is Some,
            (KindModel::Outline(_, header), Spot::Preview(inner)) => header matches Some(h)
                && h.links_at(*inner),
            (KindModel::PopPop(p), Spot::Text(click)) => link_under(
                p.input.doc.links,
                click.idx as int,
            ) is Some,
            (KindModel::PopPop(p), Spot::Output(click)) => link_under(
                p.output.doc.links,
                click.idx as int,
            ) is Some,
            (KindModel::Table(t), Spot::Entry(r, c, click)) => link_under(
                t.cells[r as int][c as int].text.doc.links,
                click.idx as int,
            ) is Some,
            (KindModel::Reference(r), Spot::Preview(inner)) => r.head.links_at(*inner),
            _ => false,
        }
    }

    /// What is selected first in the texts of the body, in the order in which they
    /// stand. The preview in an outline is not its own.
    pub open spec fn picked(self) -> Option<(Seq<u8>, Seq<Link>)>
        decreases self,
    {
        match self {
            KindModel::Plain(t) => t.picked(),
            KindModel::Outline(o, _) => first_picked(texts(o.bullets), 0),
            KindModel::PopPop(p) => if p.input.picked() is Some {
                p.input.picked()
            } else {
                p.output.picked()
            },
            KindModel::Table(t) => t.picked(),
            KindModel::Reference(r) => r.head.picked(),
        }
    }

    /// A text of the body has a selection.
    pub open spec fn text_selected(self) -> bool
        decreases self,
    {
        match self {
            KindModel::Plain(t) => t.has_selection(),
            KindModel::Outline(o, _) => exists|i: int|
                0 <= i < o.bullets.len() && (#[trigger] o.bullets[i]).text.has_selection(),
            KindModel::PopPop(p) => p.input.has_selection() || p.output.has_selection(),
            KindModel::Table(t) => exists|r: int, c: int|
                #![trigger t.cells[r][c]]
                t.holds(r, c) && t.cells[r][c].text.has_selection(),
            KindModel::Reference(r) => r.head.text_selected(),
        }
    }
}

impl CellModel {
    /// The spot is in the cell: the text is there, and the place in it.
    pub open spec fn holds_spot(self, spot: Spot) -> bool
        decreases spot, 2int,
    {
        match spot {
            Spot::Title(click) => self.title matches Some(t) && boundary(
                t.doc.text,
                click.idx as int,
            ),
            _ => self.kind.holds_spot(spot),
        }
    }

    /// A press of the mouse button there. The focus goes to the title or to the
    /// body, and the other one loses its selections; an empty title that loses the
    /// focus goes away.
    pub open spec fn pressed(self, spot: Spot, mods: Modifiers, editing: bool) -> CellModel
        decreases spot, 2int,
    {
        match spot {
            Spot::Title(click) => CellModel {
                title: match self.title {
                    Some(t) => Some(after_mouse_down(t, click, mods, editing)),
                    None => None,
                },
                title_focused: true,
                kind: self.kind.all_collapsed(),
                ..self
            },
            _ => {
                let m = self.title_left();
                CellModel {
                    title: match m.title {
                        Some(t) => Some(collapsed(t)),
                        None => None,
                    },
                    kind: m.kind.pressed(spot, mods, editing),
                    ..m
                }
            },
        }
    }

    /// The cell takes a press there.
    pub open spec fn takes_press(self, spot: Spot) -> bool {
        spot is Title || self.kind.takes_press(spot)
    }

    /// What the spot lies in holds a drag: a press of the mouse button there began it, and
    /// the button was not let go since.
    pub open spec fn holds_drag(self, spot: Spot) -> bool
        decreases spot, 2int,
    {
        match spot {
            Spot::Title(_) => self.title matches Some(t) && t.drag is Some,
            _ => self.kind.holds_drag(spot),
        }
    }

    /// A drag to the spot can be followed.
    pub open spec fn drag_fits(self, spot: Spot) -> bool
        decreases spot, 2int,
    {
        match spot {
            Spot::Title(_) => self.title matches Some(t) ==> drag_fits(t),
            _ => self.kind.drag_fits(spot),
        }
    }

    /// A drag there. Only what a drag started in follows it.
    pub open spec fn dragged(self, spot: Spot) -> CellModel
        decreases spot, 2int,
    {
        match spot {
            Spot::Title(click) => self.titled(
                match self.title {
                    Some(t) => Some(after_drag(t, click.idx, click.affinity)),
                    None => None,
                },
            ),
            _ => self.embodying(self.kind.dragged(spot)),
        }
    }

    /// A link is under the pointer.
    pub open spec fn links_at(self, spot: Spot) -> bool
        decreases spot, 2int,
    {
        match spot {
            Spot::Title(click) => self.title matches Some(t) && link_under(
                t.doc.links,
                click.idx as int,
            ) is Some,
            _ => self.kind.links_at(spot),
        }
    }

    /// What is selected in the cell: in the title, else in a text of the body, else
    /// in the preview that an outline stands around.
    pub open spec fn picked(self) -> Option<(Seq<u8>, Seq<Link>)>
        decreases self,
    {
        let above = match self.title {
            Some(t) => t.picked(),
            None => None,
        };
        if above is Some {
            above
        } else if self.kind.picked() is Some {
            self.kind.picked()
        } else {
            match self.kind {
                KindModel::Outline(_, Some(h)) => match h.cache {
                    Some(c) => (*c).picked(),
                    None => None,
                },
                _ => None,
            }
        }
    }

    /// Anything is selected in the cell, text or bullets.
    pub open spec fn any_selected(self) -> bool {
        ||| self.title matches Some(t) && t.has_selection()
        ||| self.kind.text_selected()
        ||| self.kind matches KindModel::Outline(o, _) && o.selection is Some
    }
}

proof fn lemma_embed_drag(m: EmbedModel, spot: Spot)
    requires
        m.holds_spot(spot),
        !m.holds_drag(spot),
    ensures
        m.dragged(spot) == m,
    decreases spot, 3int,
{
    if let Some(c) = m.cache {
        drags_move_only_what_holds_them(*c, spot);
    }
}

proof fn lemma_kind_drag(m: KindModel, spot: Spot)
    requires
        m.holds_spot(spot),
        !m.holds_drag(spot),
    ensures
        m.dragged(spot) == m,
    decreases spot, 1int,
{
    match (m, spot) {
        (KindModel::Outline(o, Some(h)), Spot::Preview(inner)) => {
            if o.drag matches Some(d) && d.mode == DragMode::Header {
                lemma_embed_drag(h, *inner);
            }
        },
        (KindModel::Table(t), Spot::Entry(r, c, _)) => {
            let text = t.cells[r as int][c as int].text;
            assert(t.saying(r as int, c as int, text) =~~= t);
        },
        (KindModel::Reference(r), Spot::Preview(inner)) => {
            lemma_embed_drag(r.head, *inner);
        },
        _ => {},
    }
}

/// A drag moves only what holds it: offered to any other text, it changes nothing.
pub proof fn drags_move_only_what_holds_them(m: CellModel, spot: Spot)
    requires
        m.holds_spot(spot),
        !m.holds_drag(spot),
    ensures
        m.dragged(spot) == m,
    decreases spot, 2int,
{
    match spot {
        Spot::Title(_) => {},
        _ => {
            lemma_kind_drag(m.kind, spot);
        },
    }
}

impl EmbeddedReference {
    /// Hands a press of the mouse button to the preview.
    pub fn mouse_down(&mut self, spot: &Spot, mods: Modifiers)
        requires
            old(self).model().wf(),
            old(self).model().holds_spot(*spot),
        ensures
            final(self).model() == old(self).model().pressed(*spot, mods),
            final(self).model().wf(),
        decreases spot, 3int,
    {
        if let Some(c) = self.cache_mut() {
            let _ = c.mouse_down(spot, mods, false);
        }
    }

    /// Hands a drag to the preview. Returns whether it showed.
    pub fn mouse_drag_to(&mut self, spot: &Spot) -> (r: bool)
        requires
            old(self).model().wf(),
            old(self).model().holds_spot(*spot),
            old(self).model().drag_fits(*spot),
        ensures
            final(self).model() == old(self).model().dragged(*spot),
            r == (final(self).model() != old(self).model()),
            final(self).model().wf(),
        decreases spot, 3int,
    {
        match self.cache_mut() {
            Some(c) => c.mouse_drag_to(spot),
            None => false,
        }
    }

    /// Whether what the spot lies in, in the preview, holds a drag.
    pub fn holds_drag(&self, spot: &Spot) -> (r: bool)
        ensures
            r == self.model().holds_drag(*spot),
        decreases spot, 3int,
    {
        match self.cache_ref() {
            Some(c) => c.holds_drag(spot),
            None => false,
        }
    }

    /// Whether a link in the preview is under the pointer.
    pub fn link_at(&self, spot: &Spot) -> (r: bool)
        requires
            self.model().holds_spot(*spot),
        ensures
            r == self.model().links_at(*spot),
        decreases spot, 3int,
    {
        match self.cache_ref() {
            Some(c) => c.link_at(spot),
            None => false,
        }
    }
}

impl CellKind {
    fn mouse_down(&mut self, spot: &Spot, mods: Modifiers, editing: bool) -> (r: bool)
        requires
            old(self).model().wf(),
            old(self).model().holds_spot(*spot),
        ensures
            final(self).model() == old(self).model().pressed(*spot, mods, editing),
            r == old(self).model().takes_press(*spot),
            final(self).model().wf(),
        decreases spot, 1int,
    {
        match (self, spot) {
            (CellKind::Plain(p), Spot::Text(click)) => p.body_mut().mouse_down(
                *click,
                mods,
                editing,
            ),
            (CellKind::Outline(o), Spot::Bullet(i, click)) => {
                if let Some(h) = o.reference_header_mut() {
                    h.clear_all_selections();
                }
                o.mouse_down_in_bullet(*i, *click, mods, editing)
            },
            (CellKind::Outline(o), Spot::Preview(inner)) => {
                if let Some(h) = o.reference_header_mut() {
                    h.mouse_down(&**inner, mods);
                }
                o.mouse_down_in_header()
            },
            (CellKind::PopPop(p), Spot::Text(click)) => p.mouse_down_in_input(
                *click,
                mods,
                editing,
            ),
            (CellKind::PopPop(p), Spot::Output(click)) => p.mouse_down_in_output(*click, mods),
            (CellKind::Table(t), Spot::Entry(r, c, click)) => t.mouse_down(
                *r,
                *c,
                *click,
                mods,
                editing,
            ),
            (CellKind::Reference(r), Spot::Preview(inner)) => {
                r.mouse_down(&**inner, mods);
                true
            },
            (CellKind::Reference(_), _) => true,
            _ => false,
        }
    }

    fn mouse_drag_to(&mut self, spot: &Spot) -> (r: bool)
        requires
            old(self).model().wf(),
            old(self).model().holds_spot(*spot),
            old(self).model().drag_fits(*spot),
        ensures
            final(self).model() == old(self).model().dragged(*spot),
            r == (final(self).model() != old(self).model()),
            final(self).model().wf(),
        decreases spot, 1int,
    {
        let ghost before = self.model();
        match (self, spot) {
            (CellKind::Plain(p), Spot::Text(click)) => p.body_mut().mouse_drag_to(
                click.idx,
                click.affinity,
            ),
            (CellKind::Outline(o), Spot::Bullet(i, click)) => o.mouse_drag_to(
                *i,
                click.idx,
                click.affinity,
            ),
            (CellKind::Outline(o), Spot::Preview(inner)) => {
                if !o.is_dragging_header() {
                    return false;
                }
                match o.reference_header_mut() {
                    Some(h) => h.mouse_drag_to(&**inner),
                    None => false,
                }
            },
            (CellKind::PopPop(p), Spot::Text(click)) => p.textbox_mut().mouse_drag_to(
                click.idx,
                click.affinity,
            ),
            (CellKind::PopPop(p), Spot::Output(click)) => p.output_mut().mouse_drag_to(
                click.idx,
                click.affinity,
            ),
            (CellKind::Table(t), Spot::Entry(r, c, click)) => {
                let ghost m = t@;
                let changed: bool = t.mouse_drag_to(*r, *c, click.idx, click.affinity);
                proof {
                    let text = m.cells[*r as int][*c as int].text;
                    let after = after_drag(text, click.idx, click.affinity);
                    assert(m.saying(*r as int, *c as int, text) =~~= m);
                    assert(m.saying(*r as int, *c as int, after).cells[*r as int][*c as int].text
                        == after);
                }
                changed
            },
            (CellKind::Reference(r), Spot::Preview(inner)) => r.mouse_drag_to(&**inner),
            _ => false,
        }
    }

    fn holds_drag(&self, spot: &Spot) -> (r: bool)
        ensures
            r == self.model().holds_drag(*spot),
        decreases spot, 1int,
    {
        match (self, spot) {
            (CellKind::Plain(p), Spot::Text(_)) => p.body().is_dragging(),
            (CellKind::Outline(o), Spot::Bullet(..)) => o.is_dragging() && !o.is_dragging_header(),
            (CellKind::Outline(o), Spot::Preview(inner)) => o.is_dragging_header()
                && match o.reference_header() {
                Some(h) => h.holds_drag(&**inner),
                None => false,
            },
            (CellKind::PopPop(p), Spot::Text(_)) => p.textbox().is_dragging(),
            (CellKind::PopPop(p), Spot::Output(_)) => p.output().is_dragging(),
            (CellKind::Table(t), Spot::Entry(r, c, _)) => match t.cell_at(*r, *c) {
                Some(e) => e.textbox.is_dragging(),
                None => false,
            },
            (CellKind::Reference(r), Spot::Preview(inner)) => r.holds_drag(&**inner),
            _ => false,
        }
    }

    fn link_at(&self, spot: &Spot) -> (r: bool)
        requires
            self.model().holds_spot(*spot),
        ensures
            r == self.model().links_at(*spot),
        decreases spot, 1int,
    {
        match (self, spot) {
            (CellKind::Plain(p), Spot::Text(click)) => p.body().link_at(click.idx).is_some(),
            (CellKind::Outline(o), Spot::Bullet(i, click)) => {
                let bullets = o.bullets();
                assert(o@.bullets[*i as int] == bullets@[*i as int]@);
                bullets[*i].textbox().link_at(click.idx).is_some()
            },
            (CellKind::Outline(o), Spot::Preview(inner)) => match o.reference_header() {
                Some(h) => h.link_at(&**inner),
                None => false,
            },
            (CellKind::PopPop(p), Spot::Text(click)) => p.textbox().link_at(click.idx).is_some(),
            (CellKind::PopPop(p), Spot::Output(click)) => p.output().link_at(click.idx).is_some(),
            (CellKind::Table(t), Spot::Entry(r, c, click)) => match t.cell_at(*r, *c) {
                Some(e) => e.textbox.link_at(click.idx).is_some(),
                None => false,
            },
            (CellKind::Reference(r), Spot::Preview(inner)) => r.link_at(&**inner),
            _ => false,
        }
    }

    pub fn copy_primary_selection_with_links(&self) -> (r: Option<(String, Vec<LinkSpan>)>)
        requires
            self.model().wf(),
        ensures
            picked_view(r) == self.model().picked(),
        decreases self,
    {
        match self {
            CellKind::Plain(p) => p.body().copy_primary_selection_with_links(),
            CellKind::Outline(o) => first_selection(o),
            CellKind::PopPop(p) => {
                let left = p.textbox().copy_primary_selection_with_links();
                if left.is_some() {
                    return left;
                }
                p.output().copy_primary_selection_with_links()
            },
            CellKind::Table(t) => t.copy_primary_selection_with_links(),
            CellKind::Reference(r) => r.copy_primary_selection_with_links(),
        }
    }

    pub fn has_selection(&self) -> (r: bool)
        ensures
            r == self.model().text_selected(),
        decreases self,
    {
        match self {
            CellKind::Plain(p) => p.body().has_selection(),
            CellKind::Outline(o) => any_selection(o),
            CellKind::PopPop(p) => p.textbox().has_selection() || p.output().has_selection(),
            CellKind::Table(t) => t.has_selection(),
            CellKind::Reference(r) => r.has_selection(),
        }
    }
}

fn first_selection(o: &OutlineCell) -> (r: Option<(String, Vec<LinkSpan>)>)
    requires
        o@.wf(),
    ensures
        picked_view(r) == first_picked(texts(o@.bullets), 0),
{
    let ghost ts = texts(o@.bullets);
    let bullets = o.bullets();
    let mut i: usize = 0;
    while i < bullets.len()
        invariant
            i <= bullets.len(),
            ts == texts(o@.bullets),
            o@.bullets == views(bullets@),
            o@.wf(),
            first_picked(ts, 0) == first_picked(ts, i as int),
        decreases bullets.len() - i,
    {
        assert(o@.bullets[i as int] == bullets@[i as int]@);
        assert(ts[i as int] == bullets@[i as int]@.text);
        let s = bullets[i].textbox().copy_primary_selection_with_links();
        if s.is_some() {
            return s;
        }
        i += 1;
    }
    None
}

fn any_selection(o: &OutlineCell) -> (r: bool)
    ensures
        r == (exists|i: int|
            0 <= i < o@.bullets.len() && (#[trigger] o@.bullets[i]).text.has_selection()),
{
    let bullets = o.bullets();
    let mut i: usize = 0;
    while i < bullets.len()
        invariant
            i <= bullets.len(),
            o@.bullets == views(bullets@),
            forall|k: int| 0 <= k < i ==> !(#[trigger] o@.bullets[k]).text.has_selection(),
        decreases bullets.len() - i,
    {
        assert(o@.bullets[i as int] == bullets@[i as int]@);
        if bullets[i].textbox().has_selection() {
            return true;
        }
        i += 1;
    }
    false
}

impl Cell {
    /// A press of the mouse button. Returns whether the cell took it.
    pub fn mouse_down(&mut self, spot: &Spot, mods: Modifiers, editing: bool) -> (r: bool)
        requires
            old(self).model().wf(),
            old(self).model().holds_spot(*spot),
        ensures
            final(self).model() == old(self).model().pressed(*spot, mods, editing),
            r == old(self).model().takes_press(*spot),
            final(self).model().wf(),
        decreases spot, 2int,
    {
        if let Spot::Title(click) = spot {
            self.kind.clear_all_selections();
            self.title_focused = true;
            if let Some(t) = self.title.as_mut() {
                let _ = t.mouse_down(*click, mods, editing);
            }
            return true;
        }
        self.unfocus_title_drop_if_empty();
        if let Some(t) = self.title.as_mut() {
            t.clear_selection();
        }
        self.kind.mouse_down(spot, mods, editing)
    }

    /// Whether what the spot lies in holds a drag, and follows it wherever the pointer goes.
    pub fn holds_drag(&self, spot: &Spot) -> (r: bool)
        ensures
            r == self.model().holds_drag(*spot),
        decreases spot, 2int,
    {
        if let Spot::Title(_) = spot {
            return match &self.title {
                Some(t) => t.is_dragging(),
                None => false,
            };
        }
        self.kind.holds_drag(spot)
    }

    /// A drag of the mouse. The spot lies in what holds the drag, wherever the pointer is;
    /// offered to another text, the drag changes nothing. Returns whether it showed.
    pub fn mouse_drag_to(&mut self, spot: &Spot) -> (r: bool)
        requires
            old(self).model().wf(),
            old(self).model().holds_spot(*spot),
            old(self).model().drag_fits(*spot),
        ensures
            final(self).model() == old(self).model().dragged(*spot),
            r == (final(self).model() != old(self).model()),
            !old(self).model().holds_drag(*spot) ==> final(self).model() == old(self).model(),
            final(self).model().wf(),
        decreases spot, 2int,
    {
        proof {
            if !self.model().holds_drag(*spot) {
                drags_move_only_what_holds_them(self.model(), *spot);
            }
        }
        if let Spot::Title(click) = spot {
            return match self.title.as_mut() {
                Some(t) => t.mouse_drag_to(click.idx, click.affinity),
                None => false,
            };
        }
        self.kind.mouse_drag_to(spot)
    }

    /// Whether a link is under the pointer.
    pub fn link_at(&self, spot: &Spot) -> (r: bool)
        requires
            self.model().holds_spot(*spot),
        ensures
            r == self.model().links_at(*spot),
        decreases spot, 2int,
    {
        if let Spot::Title(click) = spot {
            return match &self.title {
                Some(t) => t.link_at(click.idx).is_some(),
                None => false,
            };
        }
        self.kind.link_at(spot)
    }

    /// What is selected in the cell, with its links.
    pub fn copy_primary_selection_with_links(&self) -> (r: Option<(String, Vec<LinkSpan>)>)
        requires
            self.model().wf(),
        ensures
            picked_view(r) == self.model().picked(),
        decreases self,
    {
        if let Some(t) = &self.title {
            let above = t.copy_primary_selection_with_links();
            if above.is_some() {
                return above;
            }
        }
        let body = self.kind.copy_primary_selection_with_links();
        if body.is_some() {
            return body;
        }
        match &self.kind {
            CellKind::Outline(o) => o.copy_preview_selection_with_links(),
            _ => None,
        }
    }

    /// Whether anything is selected in the cell, text or bullets.
    pub fn has_any_selection(&self) -> (r: bool)
        ensures
            r == self.model().any_selected(),
    {
        if let Some(t) = &self.title {
            if t.has_selection() {
                return true;
            }
        }
        if self.kind.has_selection() {
            return true;
        }
        match &self.kind {
            CellKind::Outline(o) => o.has_bullet_selection(),
            _ => false,
        }
    }
}

/// Once everything in a cell has lost its selection, nothing is selected in it.
pub proof fn cleared_selections_are_gone(m: CellModel)
    requires
        m.wf(),
    ensures
        !m.all_collapsed().any_selected(),
        m.all_collapsed().picked() is None,
    decreases m,
{
    match m.title {
        Some(t) => {
            lemma_collapsed_picks_nothing(t);
        },
        None => {},
    }
    lemma_cleared_body(m.kind);
    match m.kind {
        KindModel::Outline(_, Some(h)) => match h.cache {
            Some(c) => {
                cleared_selections_are_gone(*c);
            },
            None => {},
        },
        _ => {},
    }
}

proof fn lemma_collapsed_picks_nothing(t: TextModel)
    requires
        t.wf(),
    ensures
        !collapsed(t).has_selection(),
        collapsed(t).picked() is None,
{
    let c = collapsed(t);
    if primary_ends(c) is Some {
        lemma_collapsed_wf(t);
        assert(placed(c.doc.text, c.doc.sels.items[c.doc.sels.primary]));
    }
}

proof fn lemma_cleared_body(m: KindModel)
    requires
        m.wf(),
    ensures
        !m.all_collapsed().text_selected(),
        m.all_collapsed().picked() is None,
        m.all_collapsed() matches KindModel::Outline(o, _) ==> o.selection is None,
    decreases m,
{
    match m {
        KindModel::Plain(t) => {
            lemma_collapsed_picks_nothing(t);
        },
        KindModel::Outline(o, _) => {
            let bs = o.all_collapsed().bullets;
            assert forall|i: int| 0 <= i < bs.len() implies !(
            #[trigger] bs[i]).text.has_selection() && bs[i].text.picked() is None by {
                lemma_collapsed_picks_nothing(o.bullets[i].text);
            }
            lemma_none_picked(texts(bs), 0);
        },
        KindModel::PopPop(p) => {
            lemma_collapsed_picks_nothing(p.input);
            lemma_collapsed_picks_nothing(p.output);
        },
        KindModel::Table(t) => {
            let cells = grid_mapped(t.cells, TextOp::Collapse.on());
            let p = |t: TextModel| t.primary_text().len() > 0;
            assert forall|r: int, c: int|
                #![trigger cells[r][c]]
                0 <= r < cells.len() && 0 <= c < cells[r].len()
                    implies !cells[r][c].text.has_selection() && !p(cells[r][c].text) by {
                lemma_collapsed_picks_nothing(t.cells[r][c].text);
                assert(cells[r][c].text == collapsed(t.cells[r][c].text));
            }
            lemma_grid_none(cells, p, 0);
        },
        KindModel::Reference(r) => match r.head.cache {
            Some(c) => {
                match c.title {
                    Some(t) => {
                        lemma_collapsed_picks_nothing(t);
                    },
                    None => {},
                }
                lemma_cleared_body(c.kind);
            },
            None => {},
        },
    }
}

proof fn lemma_none_picked(ts: Seq<TextModel>, k: int)
    requires
        0 <= k,
        forall|i: int| 0 <= i < ts.len() ==> (#[trigger] ts[i]).picked() is None,
    ensures
        first_picked(ts, k) is None,
    decreases ts.len() - k,
{
    if k < ts.len() {
        lemma_none_picked(ts, k + 1);
    }
}

proof fn lemma_row_none(row: Seq<EntryModel>, p: spec_fn(TextModel) -> bool, c: int)
    requires
        0 <= c <= row.len(),
        forall|j: int| 0 <= j < row.len() ==> !p((#[trigger] row[j]).text),
    ensures
        row_first(row, p, c) == row.len(),
    decreases row.len() - c,
{
    if c < row.len() {
        lemma_row_none(row, p, c + 1);
    }
}

proof fn lemma_grid_none(cells: Seq<Seq<EntryModel>>, p: spec_fn(TextModel) -> bool, r: int)
    requires
        0 <= r,
        forall|i: int, j: int|
            #![trigger cells[i][j]]
            0 <= i < cells.len() && 0 <= j < cells[i].len() ==> !p(cells[i][j].text),
    ensures
        grid_first(cells, p, r) is None,
    decreases cells.len() - r,
{
    if r < cells.len() {
        lemma_row_none(cells[r], p, 0);
        lemma_grid_none(cells, p, r + 1);
    }
}

} // verus!
