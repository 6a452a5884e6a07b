//! Cells: what a notebook is made of. A cell is a body of one of five kinds, with
//! an optional title above it.
pub mod body;
pub mod bullets;
pub mod common;
pub mod editing;
pub mod effects;
pub mod entries;
pub mod fitting;
pub mod found;
pub mod handing;
pub mod levels;
pub mod measured;
pub mod model;
pub mod outline;
pub mod plain;
pub mod pointing;
pub mod poppop;
pub mod reference;
pub mod rows;
pub mod showing;
pub mod snapshots;
pub mod spots;
pub mod table;
pub mod textbox;
pub mod typing;
pub mod urls;
pub mod wrap;

use std::ops::Range;
use vstd::prelude::*;
use vstd::utf8::*;

use crate::text;
use crate::cell::body::{link_urls, push_link_urls, tag_names, urls_of, TextOp};
use crate::cell::bullets::{lines_joined, texts, two_spaces, zoomed, DragMode, OutlineModel};
use crate::cell::common::{is_kept_tag_url, is_tag_address, now_epoch_ms, Link, LinkSpan};
use crate::cell::model::{
    after_mouse_up, all_selected, collapsed, DEFAULT_SCALE, line_count, migrated, primary_ends,
    primary_line, tags_into, TextModel,
};
use crate::cell::outline::OutlineCell;
use crate::cell::plain::PlainCell;
use crate::cell::poppop::{PopPopCell, PopPopModel};
use crate::cell::reference::{EmbedModel, ReferenceCell, ReferenceModel, ReferenceTarget};
use crate::cell::table::{
    grid_first, grid_joined, grid_mapped, grid_tags, grid_urls, row_texts, TABLE_DEFAULT_COLS,
    TABLE_DEFAULT_ROWS, EntryModel, TableCell, TableModel,
};
use crate::cell::textbox::{bytes_of, optional_bytes, TextBox};
use crate::cell::wrap::{lemma_trimmed_end, trim_end_at, trimmed_end};
use crate::ids::{new_id, Uuid};
use crate::text::{
    blank, boundary, lemma_boundary_ends, lemma_first_byte, lemma_utf8_valid, utf8, views,
};

verus! {

// ---------------------------------------------------------------------------
// What a cell is
// ---------------------------------------------------------------------------

/// The body of a cell.
#[verifier::ext_equal]
pub enum KindModel {
    Plain(TextModel),
    Outline(OutlineModel, Option<EmbedModel>),
    PopPop(PopPopModel),
    Table(TableModel),
    Reference(ReferenceModel),
}

/// The whole state of a cell.
#[verifier::ext_equal]
pub struct CellModel {
    pub id: Uuid,
    pub kind: KindModel,
    pub title: Option<TextModel>,
    /// Keys go to the title, not to the body.
    pub title_focused: bool,
    pub timestamp: i64,
    pub edited_at: i64,
    pub context_hint_id: Option<Uuid>,
    pub closed_at: Option<i64>,
    pub resurface_after: Option<i64>,
    pub scratch: bool,
    pub inbox: bool,
}

impl CellModel {
    /// Every text in the cell is well formed.
    pub open spec fn wf(self) -> bool
        decreases self,
    {
        &&& self.title matches Some(t) ==> t.wf()
        &&& self.kind.wf()
    }

    /// A cell just made at `now`.
    pub open spec fn fresh(id: Uuid, kind: KindModel, now: i64) -> CellModel {
        CellModel {
            id,
            kind,
            title: None,
            title_focused: false,
            timestamp: now,
            edited_at: now,
            context_hint_id: None,
            closed_at: None,
            resurface_after: None,
            scratch: false,
            inbox: false,
        }
    }

    /// With another body.
    pub open spec fn embodying(self, kind: KindModel) -> CellModel {
        CellModel { kind, ..self }
    }

    /// With another title.
    pub open spec fn titled(self, title: Option<TextModel>) -> CellModel {
        CellModel { title, ..self }
    }
}

impl KindModel {
    /// Every text in the body is well formed.
    pub open spec fn wf(self) -> bool
        decreases self,
    {
        match self {
            KindModel::Plain(t) => t.wf(),
            KindModel::Outline(o, header) => o.wf() && match header {
                Some(h) => h.wf(),
                None => true,
            },
            KindModel::PopPop(p) => p.wf(),
            KindModel::Table(t) => t.wf(),
            KindModel::Reference(r) => r.head.wf(),
        }
    }

    /// The zoom factor of the body.
    pub open spec fn scale(self) -> u32 {
        match self {
            KindModel::Plain(t) => t.doc.scale,
            KindModel::Outline(o, _) => o.scale,
            KindModel::PopPop(p) => p.input.doc.scale,
            KindModel::Table(t) => t.scale,
            KindModel::Reference(r) => r.scale,
        }
    }
}

/// A cell.
pub struct Cell {
    pub id: Uuid,
    pub kind: CellKind,
    pub title: Option<TextBox>,
    pub title_focused: bool,
    /// Where in the stream the cell stands; set once.
    pub timestamp: i64,
    /// When its content last changed.
    pub edited_at: i64,
    pub context_hint_id: Option<Uuid>,
    pub closed_at: Option<i64>,
    pub resurface_after: Option<i64>,
    /// The cell is on the scratch pad, not in the stream.
    pub scratch: bool,
    pub inbox: bool,
}

/// The body of a cell.
pub enum CellKind {
    Plain(PlainCell),
    Outline(OutlineCell),
    PopPop(PopPopCell),
    Table(TableCell),
    Reference(ReferenceCell),
}

/// The mathematical content of an optional text box.
pub open spec fn optional_text(t: Option<TextBox>) -> Option<TextModel> {
    match t {
        Some(t) => Some(t@),
        None => None,
    }
}

impl Cell {
    /// The mathematical content of the cell.
    pub open spec fn model(self) -> CellModel
        decreases self,
    {
        CellModel {
            id: self.id,
            kind: self.kind.model(),
            title: optional_text(self.title),
            title_focused: self.title_focused,
            timestamp: self.timestamp,
            edited_at: self.edited_at,
            context_hint_id: self.context_hint_id,
            closed_at: self.closed_at,
            resurface_after: self.resurface_after,
            scratch: self.scratch,
            inbox: self.inbox,
        }
    }
}

impl CellKind {
    /// The mathematical content of the body.
    pub open spec fn model(self) -> KindModel
        decreases self,
    {
        match self {
            CellKind::Plain(p) => KindModel::Plain(p@),
            CellKind::Outline(o) => KindModel::Outline(o@, o.embed()),
            CellKind::PopPop(p) => KindModel::PopPop(p@),
            CellKind::Table(t) => KindModel::Table(t@),
            CellKind::Reference(r) => KindModel::Reference(r.model()),
        }
    }
}

// ---------------------------------------------------------------------------
// Construction
// ---------------------------------------------------------------------------

impl Cell {
    /// A cell with a body, made at `now`.
    pub fn with_kind(id: Uuid, kind: CellKind, now: i64) -> (c: Cell)
        ensures
            c.model() == CellModel::fresh(id, kind.model(), now),
    {
        Cell {
            id,
            kind,
            title: None,
            title_focused: false,
            timestamp: now,
            edited_at: now,
            context_hint_id: None,
            closed_at: None,
            resurface_after: None,
            scratch: false,
            inbox: false,
        }
    }

    /// A cell of one text, made now.
    pub fn new(initial_text: String) -> (c: Cell)
        ensures
            c.model() == CellModel::fresh(
                c.id,
                KindModel::Plain(TextModel::fresh(utf8(initial_text@))),
                c.timestamp,
            ),
            c.model().wf(),
    {
        Cell::with_kind(
            new_id(),
            CellKind::Plain(PlainCell::new(initial_text)),
            now_epoch_ms(),
        )
    }

    /// An outline, made now.
    pub fn new_outline() -> (c: Cell)
        ensures
            exists|bullet: Uuid|
                c.model() == CellModel::fresh(
                    c.id,
                    KindModel::Outline(#[trigger] OutlineModel::fresh(bullet), None),
                    c.timestamp,
                ),
            c.model().wf(),
    {
        let o = OutlineCell::new();
        assert(o@ == OutlineModel::fresh(o@.focused));
        Cell::with_kind(new_id(), CellKind::Outline(o), now_epoch_ms())
    }

    /// A calculator, made now.
    pub fn new_poppop() -> (c: Cell)
        ensures
            c.model() == CellModel::fresh(
                c.id,
                KindModel::PopPop(PopPopModel::fresh()),
                c.timestamp,
            ),
            c.model().wf(),
    {
        Cell::with_kind(new_id(), CellKind::PopPop(PopPopCell::new()), now_epoch_ms())
    }

    /// A table of the default size, made now.
    pub fn new_table() -> (c: Cell)
        ensures
            c.model() == CellModel::fresh(
                c.id,
                KindModel::Table(
                    TableModel::fresh(TABLE_DEFAULT_ROWS as int, TABLE_DEFAULT_COLS as int),
                ),
                c.timestamp,
            ),
            c.model().wf(),
    {
        Cell::with_kind(new_id(), CellKind::Table(TableCell::new()), now_epoch_ms())
    }

    /// A reference, made now.
    pub fn new_reference(target: ReferenceTarget) -> (c: Cell)
        ensures
            c.model() == CellModel::fresh(
                c.id,
                KindModel::Reference(
                    ReferenceModel { head: EmbedModel::fresh(target), scale: DEFAULT_SCALE },
                ),
                c.timestamp,
            ),
            c.model().wf(),
    {
        Cell::with_kind(
            new_id(),
            CellKind::Reference(ReferenceCell::new(target)),
            now_epoch_ms(),
        )
    }

    /// A cell of parts that are there already.
    pub fn from_parts(
        id: Uuid,
        kind: CellKind,
        title: Option<TextBox>,
        timestamp: i64,
        edited_at: i64,
        context_hint_id: Option<Uuid>,
        closed_at: Option<i64>,
        resurface_after: Option<i64>,
        scratch: bool,
        inbox: bool,
    ) -> (c: Cell)
        ensures
            c.model() == (CellModel {
                id,
                kind: kind.model(),
                title: optional_text(title),
                title_focused: false,
                timestamp,
                edited_at,
                context_hint_id,
                closed_at,
                resurface_after,
                scratch,
                inbox,
            }),
    {
        Cell {
            id,
            kind,
            title,
            title_focused: false,
            timestamp,
            edited_at,
            context_hint_id,
            closed_at,
            resurface_after,
            scratch,
            inbox,
        }
    }

    /// Whether the cell is open.
    pub fn is_open(&self) -> (r: bool)
        ensures
            r == (self.model().closed_at is None),
    {
        self.closed_at.is_none()
    }

    /// The title.
    pub fn title(&self) -> (t: Option<&TextBox>)
        ensures
            (match t {
                Some(t) => Some((*t)@),
                None => None,
            }) == self.model().title,
    {
        match &self.title {
            Some(t) => Some(t),
            None => None,
        }
    }

    /// The title, to be changed.
    pub fn title_mut(&mut self) -> (t: Option<&mut TextBox>)
        ensures
            match t {
                Some(t) => old(self).model().title == Some((*t)@) && final(self).model() == old(
                    self,
                ).model().titled(Some(final(t)@)),
                None => old(self).model().title is None && final(self).model() == old(
                    self,
                ).model(),
            },
    {
        match &mut self.title {
            Some(t) => Some(t),
            None => None,
        }
    }

    /// Gives the cell another title, or none. A title without committed tags gets those
    /// that it spells.
    pub fn set_title(&mut self, title: Option<TextBox>)
        requires
            title matches Some(t) ==> t@.wf(),
        ensures
            final(self).model() == old(self).model().titled(
                match title {
                    Some(t) => Some(migrated(t@)),
                    None => None,
                },
            ),
    {
        self.title = match title {
            Some(t) => {
                let mut t = t;
                t.migrate_tags_from_text();
                Some(t)
            },
            None => None,
        };
    }
}

impl CellModel {
    /// The empty title that a cell without one gets.
    pub open spec fn new_title(self) -> TextModel {
        zoomed(
            TextModel { force_heading: true, ..TextModel::fresh(Seq::empty()) },
            self.kind.scale(),
        )
    }

    /// The focus on the title, which is made where there is none. A reference has
    /// no title.
    pub open spec fn title_toggled(self) -> CellModel {
        if self.kind is Reference {
            self
        } else {
            CellModel {
                title: match self.title {
                    Some(t) => Some(t),
                    None => Some(self.new_title()),
                },
                title_focused: true,
                ..self
            }
        }
    }

    /// The focus off the title; an empty title is dropped.
    pub open spec fn title_left(self) -> CellModel {
        CellModel {
            title: match self.title {
                Some(t) if !blank(t.doc.text) => Some(t),
                _ => None,
            },
            title_focused: false,
            ..self
        }
    }

    /// An empty title that nobody is editing dropped.
    pub open spec fn tidied(self) -> CellModel {
        if !self.title_focused {
            self.titled(self.title_left().title)
        } else {
            self
        }
    }
}

impl CellKind {
    /// The zoom factor of the body.
    pub fn font_scale(&self) -> (s: u32)
        ensures
            s == self.model().scale(),
    {
        match self {
            CellKind::Plain(p) => p.body().font_scale(),
            CellKind::Outline(o) => o.font_scale(),
            CellKind::PopPop(p) => p.textbox().font_scale(),
            CellKind::Table(t) => t.font_scale(),
            CellKind::Reference(r) => r.font_scale(),
        }
    }
}

impl Cell {
    /// Puts the focus on the title, making one where there is none. Returns whether
    /// that changed anything.
    pub fn toggle_title_focus(&mut self) -> (r: bool)
        requires
            old(self).model().wf(),
        ensures
            final(self).model() == old(self).model().title_toggled(),
            r == (!(old(self).model().kind is Reference) && (old(self).model().title is None
                || !old(self).model().title_focused)),
            final(self).model().wf(),
    {
        if matches!(self.kind, CellKind::Reference(_)) {
            return false;
        }
        let created: bool = self.title.is_none();
        if created {
            let scale: u32 = self.kind.font_scale();
            let none = String::new();
            assert(utf8(none@) =~= Seq::<u8>::empty());
            let mut tb = TextBox::new(none);
            tb.set_force_heading(true);
            tb.set_font_scale(scale);
            assert(tb@ =~= self.model().new_title());
            self.title = Some(tb);
        }
        let was: bool = self.title_focused;
        self.title_focused = true;
        created || !was
    }

    /// Takes the focus off the title; an empty title is dropped.
    pub fn unfocus_title_drop_if_empty(&mut self)
        requires
            old(self).model().wf(),
        ensures
            final(self).model() == old(self).model().title_left(),
            final(self).model().wf(),
    {
        self.title_focused = false;
        let empty: bool = match &self.title {
            Some(t) => t.is_empty(),
            None => false,
        };
        if empty {
            self.title = None;
        }
    }

    /// Drops an empty title that nobody is editing, as is due before the cell is
    /// drawn.
    pub fn tidy_title(&mut self)
        requires
            old(self).model().wf(),
        ensures
            final(self).model() == old(self).model().tidied(),
            final(self).model().wf(),
    {
        if !self.title_focused {
            self.unfocus_title_drop_if_empty();
        }
    }
}

// ---------------------------------------------------------------------------
// Selections
// ---------------------------------------------------------------------------

impl EmbedModel {
    /// No selection left in the preview.
    pub open spec fn all_collapsed(self) -> EmbedModel
        decreases self,
    {
        match self.cache {
            Some(c) => EmbedModel { cache: Some(Box::new((*c).all_collapsed())), ..self },
            None => self,
        }
    }
}

impl KindModel {
    /// No selection left in the body.
    pub open spec fn all_collapsed(self) -> KindModel
        decreases self,
    {
        match self {
            KindModel::Plain(t) => KindModel::Plain(collapsed(t)),
            KindModel::Outline(o, header) => KindModel::Outline(
                o.all_collapsed(),
                match header {
                    Some(h) => Some(h.all_collapsed()),
                    None => None,
                },
            ),
            KindModel::PopPop(p) => KindModel::PopPop(
                PopPopModel { input: collapsed(p.input), output: collapsed(p.output), ..p },
            ),
            KindModel::Table(t) => KindModel::Table(
                TableModel { cells: grid_mapped(t.cells, TextOp::Collapse.on()), ..t },
            ),
            KindModel::Reference(r) => KindModel::Reference(
                ReferenceModel { head: r.head.all_collapsed(), ..r },
            ),
        }
    }
}

impl CellModel {
    /// No selection left in the cell.
    pub open spec fn all_collapsed(self) -> CellModel
        decreases self,
    {
        CellModel {
            title: match self.title {
                Some(t) => Some(collapsed(t)),
                None => None,
            },
            kind: self.kind.all_collapsed(),
            ..self
        }
    }
}

impl Cell {
    /// Drops every selection in the cell: in its title, its body and the preview
    /// in it.
    pub fn clear_all_selections(&mut self)
        requires
            old(self).model().wf(),
        ensures
            final(self).model() == old(self).model().all_collapsed(),
            final(self).model().wf(),
        decreases *old(self),
    {
        if let Some(t) = self.title.as_mut() {
            t.clear_selection();
        }
        self.kind.clear_all_selections();
    }
}

impl CellKind {
    /// Drops every selection in the body and in the preview in it.
    pub fn clear_all_selections(&mut self)
        requires
            old(self).model().wf(),
        ensures
            final(self).model() == old(self).model().all_collapsed(),
            final(self).model().wf(),
        decreases *old(self),
    {
        match self {
            CellKind::Plain(p) => p.body_mut().clear_selection(),
            CellKind::Outline(o) => o.clear_all_selections(),
            CellKind::PopPop(p) => {
                p.textbox_mut().clear_selection();
                p.output_mut().clear_selection();
            },
            CellKind::Table(t) => {
                let _ = t.run_on_all(&TextOp::Collapse);
            },
            CellKind::Reference(r) => r.clear_all_selections(),
        }
    }
}

// ---------------------------------------------------------------------------
// Following links, ending drags, selecting everything
// ---------------------------------------------------------------------------

impl EmbedModel {
    /// The address in the preview that is to be followed.
    pub open spec fn pending(self) -> Option<Seq<u8>>
        decreases self,
    {
        match self.cache {
            Some(c) => (*c).pending(),
            None => None,
        }
    }

    /// The address in the preview handed out.
    pub open spec fn followed(self) -> EmbedModel
        decreases self,
    {
        match self.cache {
            Some(c) => EmbedModel { cache: Some(Box::new((*c).followed())), ..self },
            None => self,
        }
    }

    /// The end of a drag shows in the preview.
    pub open spec fn release_shows(self) -> bool
        decreases self,
    {
        match self.cache {
            Some(c) => (*c).release_shows(),
            None => false,
        }
    }

    /// A drag in the preview ended.
    pub open spec fn released(self) -> EmbedModel
        decreases self,
    {
        match self.cache {
            Some(c) => EmbedModel { cache: Some(Box::new((*c).released())), ..self },
            None => self,
        }
    }

    /// Everything in the preview selected.
    pub open spec fn everything_selected(self) -> EmbedModel
        decreases self,
    {
        match self.cache {
            Some(c) => EmbedModel { cache: Some(Box::new((*c).everything_selected())), ..self },
            None => self,
        }
    }
}

/// A text with its marked address handed out.
pub open spec fn handed_out(t: TextModel) -> TextModel {
    TextModel { pending_url: None, ..t }
}

impl KindModel {
    /// The address in the body that is to be followed: in an embedded preview
    /// first, then in the texts in order.
    pub open spec fn pending(self) -> Option<Seq<u8>>
        decreases self,
    {
        match self {
            KindModel::Plain(t) => t.pending_url,
            KindModel::Outline(o, header) => {
                let own = if o.pending_at(0) < o.bullets.len() {
                    o.bullets[o.pending_at(0)].text.pending_url
                } else {
                    None
                };
                match header {
                    Some(h) => match h.pending() {
                        Some(url) => Some(url),
                        None => own,
                    },
                    None => own,
                }
            },
            KindModel::PopPop(p) => if p.input.pending_url is Some {
                p.input.pending_url
            } else {
                p.output.pending_url
            },
            KindModel::Table(t) => match grid_first(
                t.cells,
                |t: TextModel| t.pending_url is Some,
                0,
            ) {
                Some((r, c)) => t.cells[r][c].text.pending_url,
                None => None,
            },
            KindModel::Reference(r) => r.head.pending(),
        }
    }

    /// That address handed out.
    pub open spec fn followed(self) -> KindModel
        decreases self,
    {
        match self {
            KindModel::Plain(t) => KindModel::Plain(handed_out(t)),
            KindModel::Outline(o, header) => {
                let k = o.pending_at(0);
                let own = if k < o.bullets.len() {
                    o.saying(k, handed_out(o.bullets[k].text))
                } else {
                    o
                };
                match header {
                    Some(h) => KindModel::Outline(
                        if h.pending() is Some {
                            o
                        } else {
                            own
                        },
                        Some(h.followed()),
                    ),
                    None => KindModel::Outline(own, None),
                }
            },
            KindModel::PopPop(p) => KindModel::PopPop(
                if p.input.pending_url is Some {
                    PopPopModel { input: handed_out(p.input), ..p }
                } else {
                    PopPopModel { output: handed_out(p.output), ..p }
                },
            ),
            KindModel::Table(t) => match grid_first(
                t.cells,
                |t: TextModel| t.pending_url is Some,
                0,
            ) {
                Some((r, c)) => KindModel::Table(t.saying(r, c, handed_out(t.cells[r][c].text))),
                None => self,
            },
            KindModel::Reference(r) => KindModel::Reference(
                ReferenceModel { head: r.head.followed(), ..r },
            ),
        }
    }

    /// The end of a drag shows in the body.
    pub open spec fn release_shows(self) -> bool
        decreases self,
    {
        match self {
            KindModel::Plain(t) => t.drag is Some,
            KindModel::Outline(o, header) => o.release_shows() || match (o.drag, header) {
                (Some(d), Some(h)) => d.mode == DragMode::Header && h.release_shows(),
                _ => false,
            },
            KindModel::PopPop(p) => p.input.drag is Some || p.output.drag is Some,
            KindModel::Table(t) => exists|r: int, c: int|
                #![trigger t.cells[r][c]]
                t.holds(r, c) && t.cells[r][c].text.drag is Some,
            KindModel::Reference(r) => r.head.release_shows(),
        }
    }

    /// A drag in the body ended.
    pub open spec fn released(self) -> KindModel
        decreases self,
    {
        match self {
            KindModel::Plain(t) => KindModel::Plain(after_mouse_up(t)),
            KindModel::Outline(o, header) => KindModel::Outline(
                o.released(),
                match (o.drag, header) {
                    (Some(d), Some(h)) => if d.mode == DragMode::Header {
                        Some(h.released())
                    } else {
                        header
                    },
                    _ => header,
                },
            ),
            KindModel::PopPop(p) => KindModel::PopPop(
                PopPopModel {
                    input: after_mouse_up(p.input),
                    output: after_mouse_up(p.output),
                    ..p
                },
            ),
            KindModel::Table(t) => KindModel::Table(
                TableModel { cells: grid_mapped(t.cells, TextOp::Release.on()), ..t },
            ),
            KindModel::Reference(r) => KindModel::Reference(
                ReferenceModel { head: r.head.released(), ..r },
            ),
        }
    }

    /// Everything selected that has the focus in the body.
    pub open spec fn everything_selected(self) -> KindModel
        decreases self,
    {
        match self {
            KindModel::Plain(t) => KindModel::Plain(all_selected(t)),
            KindModel::Outline(o, header) => KindModel::Outline(o.everything_selected(), header),
            KindModel::PopPop(p) => KindModel::PopPop(
                PopPopModel { input: all_selected(p.input), ..p },
            ),
            KindModel::Table(t) => KindModel::Table(t.focused_selected()),
            KindModel::Reference(r) => KindModel::Reference(
                ReferenceModel { head: r.head.everything_selected(), ..r },
            ),
        }
    }
}

impl TableModel {
    /// The text of the focused entry selected.
    pub open spec fn focused_selected(self) -> TableModel {
        let (r, c) = (self.focused.0 as int, self.focused.1 as int);
        if self.holds(r, c) {
            self.saying(r, c, all_selected(self.cells[r][c].text))
        } else {
            self
        }
    }
}

impl CellModel {
    /// The address in the cell that is to be followed: in the title first.
    pub open spec fn pending(self) -> Option<Seq<u8>>
        decreases self,
    {
        match self.title {
            Some(t) if t.pending_url is Some => t.pending_url,
            _ => self.kind.pending(),
        }
    }

    /// That address handed out.
    pub open spec fn followed(self) -> CellModel
        decreases self,
    {
        match self.title {
            Some(t) if t.pending_url is Some => self.titled(Some(handed_out(t))),
            _ => self.embodying(self.kind.followed()),
        }
    }

    /// The end of a drag shows in the cell.
    pub open spec fn release_shows(self) -> bool
        decreases self,
    {
        (self.title matches Some(t) && t.drag is Some) || self.kind.release_shows()
    }

    /// Every drag in the cell ended.
    pub open spec fn released(self) -> CellModel
        decreases self,
    {
        CellModel {
            title: match self.title {
                Some(t) => Some(after_mouse_up(t)),
                None => None,
            },
            kind: self.kind.released(),
            ..self
        }
    }

    /// Everything selected that has the focus in the cell.
    pub open spec fn everything_selected(self) -> CellModel
        decreases self,
    {
        match self.title {
            Some(t) if self.title_focused => self.titled(Some(all_selected(t))),
            _ => self.embodying(self.kind.everything_selected()),
        }
    }
}

impl Cell {
    /// The address that the last press of the mouse button marked, handed out
    /// once.
    pub fn take_pending_link_url(&mut self) -> (url: Option<String>)
        requires
            old(self).model().wf(),
        ensures
            optional_bytes(url) == old(self).model().pending(),
            final(self).model() == old(self).model().followed(),
            final(self).model().wf(),
        decreases *old(self),
    {
        if let Some(t) = self.title.as_mut() {
            if t.has_pending_link() {
                return t.take_pending_link_url();
            }
        }
        self.kind.take_pending_link_url()
    }

    /// Ends every drag in the cell. Returns whether that shows.
    pub fn mouse_up(&mut self) -> (r: bool)
        requires
            old(self).model().wf(),
        ensures
            r == old(self).model().release_shows(),
            final(self).model() == old(self).model().released(),
            final(self).model().wf(),
        decreases *old(self),
    {
        let mut any: bool = false;
        if let Some(t) = self.title.as_mut() {
            any = t.mouse_up();
        }
        let body: bool = self.kind.mouse_up();
        any || body
    }

    /// Selects everything in the text that has the focus.
    pub fn select_all_focused(&mut self)
        requires
            old(self).model().wf(),
        ensures
            final(self).model() == old(self).model().everything_selected(),
            final(self).model().wf(),
        decreases *old(self),
    {
        if self.title_focused {
            if let Some(t) = self.title.as_mut() {
                t.select_all();
                return ;
            }
        }
        self.kind.select_all_focused();
    }
}

impl CellKind {
    fn take_pending_link_url(&mut self) -> (url: Option<String>)
        requires
            old(self).model().wf(),
        ensures
            optional_bytes(url) == old(self).model().pending(),
            final(self).model() == old(self).model().followed(),
            final(self).model().wf(),
        decreases *old(self),
    {
        match self {
            CellKind::Plain(p) => p.body_mut().take_pending_link_url(),
            CellKind::Outline(o) => o.take_pending_link_url(),
            CellKind::PopPop(p) => p.take_pending_link_url(),
            CellKind::Table(t) => t.take_pending_link_url(),
            CellKind::Reference(r) => r.take_pending_link_url(),
        }
    }

    fn mouse_up(&mut self) -> (r: bool)
        requires
            old(self).model().wf(),
        ensures
            r == old(self).model().release_shows(),
            final(self).model() == old(self).model().released(),
            final(self).model().wf(),
        decreases *old(self),
    {
        match self {
            CellKind::Plain(p) => p.body_mut().mouse_up(),
            CellKind::Outline(o) => o.release(),
            CellKind::PopPop(p) => p.mouse_up(),
            CellKind::Table(t) => t.mouse_up(),
            CellKind::Reference(r) => r.mouse_up(),
        }
    }

    fn select_all_focused(&mut self)
        requires
            old(self).model().wf(),
        ensures
            final(self).model() == old(self).model().everything_selected(),
            final(self).model().wf(),
        decreases *old(self),
    {
        match self {
            CellKind::Plain(p) => p.body_mut().select_all(),
            CellKind::Outline(o) => o.select_all_in_focused(),
            CellKind::PopPop(p) => p.textbox_mut().select_all(),
            CellKind::Table(t) => t.select_all_focused(),
            CellKind::Reference(r) => r.select_all_focused(),
        }
    }
}

// ---------------------------------------------------------------------------
// Reading
// ---------------------------------------------------------------------------

impl EmbedModel {
    /// What copying in the preview gives.
    pub open spec fn copied(self) -> Seq<u8>
        decreases self,
    {
        match self.cache {
            Some(c) => (*c).copied(),
            None => Seq::empty(),
        }
    }
}

impl KindModel {
    /// What copying in the body gives.
    pub open spec fn copied(self) -> Seq<u8>
        decreases self,
    {
        match self {
            KindModel::Plain(t) => t.primary_text(),
            KindModel::Outline(o, _) => o.copied(),
            KindModel::PopPop(p) => p.copied(),
            KindModel::Table(t) => t.copied(),
            KindModel::Reference(r) => r.head.copied(),
        }
    }

    /// The whole body as text. A reference adds nothing: its source is searched
    /// where it stands.
    pub open spec fn full(self) -> Seq<u8> {
        match self {
            KindModel::Plain(t) => t.doc.text,
            KindModel::Outline(o, _) => lines_joined(
                o.bullets,
                two_spaces(),
                0,
                o.bullets.len() as int,
            ),
            KindModel::PopPop(p) => p.input.doc.text,
            KindModel::Table(t) => grid_joined(t.cells, t.cells.len() as int),
            KindModel::Reference(_) => Seq::empty(),
        }
    }

    /// The addresses of all links of the body. A reference has none of its own.
    pub open spec fn urls(self) -> Seq<Seq<u8>> {
        match self {
            KindModel::Plain(t) => urls_of(t.doc.links),
            KindModel::Outline(o, _) => link_urls(texts(o.bullets), o.bullets.len() as int),
            KindModel::PopPop(p) => urls_of(p.input.doc.links) + urls_of(p.output.doc.links),
            KindModel::Table(t) => grid_urls(t.cells, t.cells.len() as int),
            KindModel::Reference(_) => Seq::empty(),
        }
    }

    /// `names` and the tags of the body. In a calculator `#` starts a note, so it
    /// has none; nor has a reference.
    pub open spec fn tags_behind(self, names: Seq<Seq<u8>>) -> Seq<Seq<u8>> {
        match self {
            KindModel::Plain(t) => t.tags_behind(names),
            KindModel::Outline(o, _) => tag_names(
                names,
                texts(o.bullets),
                o.bullets.len() as int,
            ),
            KindModel::Table(t) => grid_tags(names, t.cells, t.cells.len() as int),
            KindModel::PopPop(_) | KindModel::Reference(_) => names,
        }
    }

    /// The body says nothing. A reference always says something: what it points
    /// at.
    pub open spec fn says_nothing(self) -> bool {
        match self {
            KindModel::Plain(t) => blank(t.doc.text),
            KindModel::Outline(o, header) => header is None && forall|i: int|
                0 <= i < o.bullets.len() ==> blank((#[trigger] o.bullets[i]).text.doc.text),
            KindModel::PopPop(p) => blank(p.input.doc.text),
            KindModel::Table(t) => forall|r: int, c: int|
                #![trigger t.cells[r][c]]
                t.holds(r, c) ==> blank(t.cells[r][c].text.doc.text),
            KindModel::Reference(_) => false,
        }
    }

    /// The text that has the focus in the body and takes tags: none in a
    /// calculator, where `#` starts a note, nor in a reference.
    pub open spec fn focused_text(self) -> Option<TextModel> {
        match self {
            KindModel::Plain(t) => Some(t),
            KindModel::Outline(o, _) => if o.has_focus() {
                Some(o.bullets[o.at()].text)
            } else {
                None
            },
            KindModel::Table(t) => if t.holds(t.focused.0 as int, t.focused.1 as int) {
                Some(t.focused_text())
            } else {
                None
            },
            KindModel::PopPop(_) | KindModel::Reference(_) => None,
        }
    }

    /// The text that keys go to in the body.
    pub open spec fn typed_text(self) -> Option<TextModel> {
        match self {
            KindModel::PopPop(p) => Some(p.input),
            _ => self.focused_text(),
        }
    }

    /// The caret is on the first visual line of the body. In a reference there is
    /// none, so an arrow leaves it at once.
    pub open spec fn at_top(self) -> bool {
        match self {
            KindModel::Plain(t) => primary_line(t) == 0,
            KindModel::Outline(o, _) => o.focused == o.bullets[0].id && primary_line(
                o.bullets[0].text,
            ) == 0,
            KindModel::PopPop(p) => primary_line(p.input) == 0,
            KindModel::Table(t) => t.focused.0 == 0 && (t.holds(0, t.focused.1 as int)
                ==> primary_line(t.focused_text()) == 0),
            KindModel::Reference(_) => true,
        }
    }

    /// The caret is on the last visual line of the body.
    pub open spec fn at_bottom(self) -> bool {
        match self {
            KindModel::Plain(t) => primary_line(t) + 1 >= line_count(t),
            KindModel::Outline(o, _) => o.focused == o.bullets.last().id && primary_line(
                o.bullets.last().text,
            ) + 1 >= line_count(o.bullets.last().text),
            KindModel::PopPop(p) => primary_line(p.input) + 1 >= line_count(p.input),
            KindModel::Table(t) => t.focused.0 + 1 >= t.cells.len() && (t.holds(
                t.focused.0 as int,
                t.focused.1 as int,
            ) ==> primary_line(t.focused_text()) + 1 >= line_count(t.focused_text())),
            KindModel::Reference(_) => true,
        }
    }
}

impl CellModel {
    /// The title, where it has the focus.
    pub open spec fn focused_title(self) -> Option<TextModel> {
        if self.title_focused {
            self.title
        } else {
            None
        }
    }

    /// What copying gives: what is selected in the title where that has the focus,
    /// else what is selected in the body.
    pub open spec fn copied(self) -> Seq<u8>
        decreases self,
    {
        match self.title {
            Some(t) if self.title_focused && t.primary_text().len() > 0 => t.primary_text(),
            _ => self.kind.copied(),
        }
    }

    /// The whole cell as text: the title on a line of its own, then the body.
    pub open spec fn full(self) -> Seq<u8> {
        match self.title {
            Some(t) if t.doc.text.len() > 0 => t.doc.text + seq![10u8] + self.kind.full(),
            _ => self.kind.full(),
        }
    }

    /// The addresses of all links: those of the title, then those of the body.
    pub open spec fn urls(self) -> Seq<Seq<u8>> {
        match self.title {
            Some(t) => urls_of(t.doc.links) + self.kind.urls(),
            None => self.kind.urls(),
        }
    }

    /// The tags of the title.
    pub open spec fn heading_tags(self) -> Seq<Seq<u8>> {
        match self.title {
            Some(t) => t.heading_tags(),
            None => Seq::empty(),
        }
    }

    /// All tags of the cell: those of the title, then those of the body, each
    /// once.
    pub open spec fn tags(self) -> Seq<Seq<u8>> {
        self.kind.tags_behind(self.heading_tags())
    }

    /// Title and body say nothing.
    pub open spec fn says_nothing(self) -> bool {
        (self.title matches Some(t) ==> blank(t.doc.text)) && self.kind.says_nothing()
    }

    /// The text that keys go to.
    pub open spec fn typed_text(self) -> Option<TextModel> {
        match self.focused_title() {
            Some(t) => Some(t),
            None => self.kind.typed_text(),
        }
    }

    /// The caret is at the top of the cell. A title above the body keeps the body
    /// from being there.
    pub open spec fn at_top(self) -> bool {
        if self.title_focused {
            self.title matches Some(t) ==> primary_line(t) == 0
        } else {
            self.title is None && self.kind.at_top()
        }
    }

    /// The caret is at the bottom of the cell.
    pub open spec fn at_bottom(self) -> bool {
        !self.title_focused && self.kind.at_bottom()
    }
}

/// No tag is named twice by a cell.
pub proof fn tags_are_distinct(m: CellModel)
    ensures
        m.tags().no_duplicates(),
{
    match m.title {
        Some(t) => {
            if t.force_heading {
                lemma_tags_distinct(Seq::empty(), t.doc.links, t.heading_end());
            }
        },
        None => {},
    }
    let names = m.heading_tags();
    assert(names.no_duplicates());
    match m.kind {
        KindModel::Plain(t) => {
            lemma_tags_distinct(names, t.doc.links, usize::MAX as int);
        },
        KindModel::Outline(o, _) => {
            lemma_tag_names_distinct(names, texts(o.bullets), o.bullets.len() as int);
        },
        KindModel::Table(t) => {
            lemma_grid_tags_distinct(names, t.cells, t.cells.len() as int);
        },
        _ => {},
    }
}

proof fn lemma_tags_distinct(names: Seq<Seq<u8>>, links: Seq<Link>, limit: int)
    requires
        names.no_duplicates(),
    ensures
        tags_into(names, links, limit).no_duplicates(),
    decreases links.len(),
{
    if links.len() > 0 {
        lemma_tags_distinct(names, links.drop_last(), limit);
    }
}

proof fn lemma_tag_names_distinct(names: Seq<Seq<u8>>, ts: Seq<TextModel>, n: int)
    requires
        names.no_duplicates(),
    ensures
        tag_names(names, ts, n).no_duplicates(),
    decreases n,
{
    if n > 0 {
        lemma_tag_names_distinct(names, ts, n - 1);
        lemma_tags_distinct(
            tag_names(names, ts, n - 1),
            ts[n - 1].doc.links,
            usize::MAX as int,
        );
    }
}

proof fn lemma_grid_tags_distinct(names: Seq<Seq<u8>>, cells: Seq<Seq<EntryModel>>, n: int)
    requires
        names.no_duplicates(),
    ensures
        grid_tags(names, cells, n).no_duplicates(),
    decreases n,
{
    if n > 0 {
        lemma_grid_tags_distinct(names, cells, n - 1);
        lemma_tag_names_distinct(
            grid_tags(names, cells, n - 1),
            row_texts(cells[n - 1]),
            cells[n - 1].len() as int,
        );
    }
}

impl CellKind {
    fn copy_text(&self) -> (s: String)
        requires
            self.model().wf(),
        ensures
            utf8(s@) == self.model().copied(),
        decreases self,
    {
        match self {
            CellKind::Plain(p) => p.body().copy_primary_selection(),
            CellKind::Outline(o) => o.copy_text(),
            CellKind::PopPop(p) => p.copy_selection(),
            CellKind::Table(t) => t.copy_selection(),
            CellKind::Reference(r) => r.copy_text(),
        }
    }

    fn full_text(&self) -> (s: String)
        ensures
            utf8(s@) == self.model().full(),
    {
        match self {
            CellKind::Plain(p) => text::copy(p.body().text()),
            CellKind::Outline(o) => o.full_text(),
            CellKind::PopPop(p) => text::copy(p.textbox().text()),
            CellKind::Table(t) => t.full_text(),
            CellKind::Reference(_) => {
                let none = String::new();
                assert(utf8(none@) =~= Seq::<u8>::empty());
                none
            },
        }
    }

    fn all_link_urls_into(&self, out: &mut Vec<String>)
        ensures
            bytes_of(final(out)@) == bytes_of(old(out)@) + self.model().urls(),
    {
        let ghost start = bytes_of(out@);
        match self {
            CellKind::Plain(p) => push_link_urls(p.body(), out),
            CellKind::Outline(o) => o.all_link_urls_into(out),
            CellKind::PopPop(p) => {
                push_link_urls(p.textbox(), out);
                push_link_urls(p.output(), out);
                assert(bytes_of(out@) =~= start + self.model().urls());
            },
            CellKind::Table(t) => t.all_link_urls_into(out),
            CellKind::Reference(_) => {
                assert(start + self.model().urls() =~= start);
            },
        }
    }

    fn all_tag_names_into(&self, out: &mut Vec<String>)
        ensures
            bytes_of(final(out)@) == self.model().tags_behind(bytes_of(old(out)@)),
    {
        match self {
            CellKind::Plain(p) => p.body().all_tag_names_into(out),
            CellKind::Outline(o) => o.all_tag_names_into(out),
            CellKind::Table(t) => t.all_tag_names_into(out),
            CellKind::PopPop(_) | CellKind::Reference(_) => {},
        }
    }

    fn is_empty(&self) -> (r: bool)
        ensures
            r == self.model().says_nothing(),
    {
        match self {
            CellKind::Plain(p) => p.body().is_empty(),
            CellKind::Outline(o) => o.is_empty(),
            CellKind::PopPop(p) => p.textbox().is_empty(),
            CellKind::Table(t) => t.is_empty(),
            CellKind::Reference(_) => false,
        }
    }

    fn focused_textbox(&self) -> (t: Option<&TextBox>)
        ensures
            (match t {
                Some(t) => Some((*t)@),
                None => None,
            }) == self.model().focused_text(),
    {
        match self {
            CellKind::Plain(p) => Some(p.body()),
            CellKind::Outline(o) => o.focused_textbox(),
            CellKind::Table(t) => {
                let (r, c) = t.focused_index();
                match t.cell_at(r, c) {
                    Some(e) => Some(&e.textbox),
                    None => None,
                }
            },
            CellKind::PopPop(_) | CellKind::Reference(_) => None,
        }
    }

    fn typed_textbox(&self) -> (t: Option<&TextBox>)
        ensures
            (match t {
                Some(t) => Some((*t)@),
                None => None,
            }) == self.model().typed_text(),
    {
        match self {
            CellKind::PopPop(p) => Some(p.textbox()),
            _ => self.focused_textbox(),
        }
    }

    pub fn at_top_edge(&self) -> (r: bool)
        requires
            self.model().wf(),
        ensures
            r == self.model().at_top(),
    {
        match self {
            CellKind::Plain(p) => p.body().at_top_visual_line(),
            CellKind::Outline(o) => o.at_top_edge(),
            CellKind::PopPop(p) => p.textbox().at_top_visual_line(),
            CellKind::Table(t) => {
                let (r, c) = t.focused_index();
                r == 0 && match t.cell_at(r, c) {
                    Some(e) => {
                        assert(t@.cells[r as int][c as int].text.wf());
                        e.textbox.at_top_visual_line()
                    },
                    None => true,
                }
            },
            CellKind::Reference(_) => true,
        }
    }

    fn at_bottom_edge(&self) -> (r: bool)
        requires
            self.model().wf(),
        ensures
            r == self.model().at_bottom(),
    {
        match self {
            CellKind::Plain(p) => p.body().at_bottom_visual_line(),
            CellKind::Outline(o) => o.at_bottom_edge(),
            CellKind::PopPop(p) => p.textbox().at_bottom_visual_line(),
            CellKind::Table(t) => {
                let (r, c) = t.focused_index();
                let n: usize = t.rows();
                (n == 0 || r >= n - 1) && match t.cell_at(r, c) {
                    Some(e) => {
                        assert(t@.cells[r as int][c as int].text.wf());
                        e.textbox.at_bottom_visual_line()
                    },
                    None => true,
                }
            },
            CellKind::Reference(_) => true,
        }
    }
}

impl Cell {
    /// What is selected in the title where that has the focus, else in the body.
    pub fn copy_text(&self) -> (s: String)
        requires
            self.model().wf(),
        ensures
            utf8(s@) == self.model().copied(),
        decreases self,
    {
        if self.title_focused {
            if let Some(t) = &self.title {
                let s = t.copy_primary_selection();
                if text::len(s.as_str()) > 0 {
                    return s;
                }
            }
        }
        self.kind.copy_text()
    }

    /// The whole cell as text: the title on a line of its own, then the body.
    pub fn full_text(&self) -> (s: String)
        ensures
            utf8(s@) == self.model().full(),
    {
        let body = self.kind.full_text();
        if let Some(t) = &self.title {
            if text::len(t.text()) > 0 {
                let mut s = text::copy(t.text());
                proof {
                    reveal_strlit("\n");
                    is_ascii_chars_encode_utf8("\n"@);
                    assert(utf8("\n"@) =~= seq![10u8]);
                }
                text::push_str(&mut s, "\n");
                text::push_str(&mut s, body.as_str());
                return s;
            }
        }
        body
    }

    /// The addresses of all links, those of the title first.
    pub fn all_link_urls(&self) -> (urls: Vec<String>)
        ensures
            bytes_of(urls@) == self.model().urls(),
    {
        let mut out: Vec<String> = Vec::new();
        assert(bytes_of(out@) =~= Seq::<Seq<u8>>::empty());
        if let Some(t) = &self.title {
            push_link_urls(t, &mut out);
        }
        let ghost led = bytes_of(out@);
        self.kind.all_link_urls_into(&mut out);
        assert(bytes_of(out@) =~= self.model().urls());
        out
    }

    /// The distinct tags of the title.
    pub fn heading_tag_names(&self) -> (names: Vec<String>)
        ensures
            bytes_of(names@) == self.model().heading_tags(),
    {
        match &self.title {
            Some(t) => t.heading_tag_names(),
            None => {
                let none: Vec<String> = Vec::new();
                assert(bytes_of(none@) =~= Seq::<Seq<u8>>::empty());
                none
            },
        }
    }

    /// The distinct tags of the cell: those of the title, then those of the body.
    pub fn all_tag_names(&self) -> (names: Vec<String>)
        ensures
            bytes_of(names@) == self.model().tags(),
    {
        let mut out = self.heading_tag_names();
        self.kind.all_tag_names_into(&mut out);
        out
    }

    /// Whether title and body say nothing.
    pub fn is_empty(&self) -> (r: bool)
        ensures
            r == self.model().says_nothing(),
    {
        let title_empty: bool = match &self.title {
            Some(t) => t.is_empty(),
            None => true,
        };
        title_empty && self.kind.is_empty()
    }

    /// Whether the caret is at the top of the cell.
    pub fn at_top_edge(&self) -> (r: bool)
        requires
            self.model().wf(),
        ensures
            r == self.model().at_top(),
    {
        if self.title_focused {
            return match &self.title {
                Some(t) => t.at_top_visual_line(),
                None => true,
            };
        }
        self.title.is_none() && self.kind.at_top_edge()
    }

    /// Whether the caret is at the bottom of the cell.
    pub fn at_bottom_edge(&self) -> (r: bool)
        requires
            self.model().wf(),
        ensures
            r == self.model().at_bottom(),
    {
        !self.title_focused && self.kind.at_bottom_edge()
    }

    /// The text that keys go to, and where its caret is.
    pub fn focused_text_and_caret(&self) -> (r: Option<(&str, usize)>)
        ensures
            match r {
                Some((text, head)) => {
                    &&& self.model().typed_text() matches Some(t)
                    &&& utf8(text@) == t.doc.text
                    &&& primary_ends(t) matches Some((_, h)) && h == head
                },
                None => self.model().typed_text() matches Some(t) ==> primary_ends(t) is None,
            },
    {
        let focused = if self.title_focused {
            match &self.title {
                Some(t) => Some(t),
                None => self.kind.typed_textbox(),
            }
        } else {
            self.kind.typed_textbox()
        };
        match focused {
            Some(t) => match t.primary_caret() {
                Some((_, h)) => Some((t.text(), h)),
                None => None,
            },
            None => None,
        }
    }

    /// The focused bullet, where an outline has the focus.
    pub fn focused_bullet_id(&self) -> (id: Option<Uuid>)
        ensures
            id == (match self.model().kind {
                KindModel::Outline(o, _) if !self.model().title_focused => Some(o.focused),
                _ => None,
            }),
    {
        if self.title_focused {
            return None;
        }
        match &self.kind {
            CellKind::Outline(o) => Some(o.focused_bullet_id()),
            _ => None,
        }
    }

    /// Whether the caret is in a committed tag, or right behind it: what is typed
    /// next renames the tag.
    pub fn caret_in_in_progress_tag(&self) -> (r: bool)
        ensures
            r == ({
                let t = if self.model().title_focused {
                    self.model().title
                } else {
                    self.model().kind.focused_text()
                };
                t matches Some(t) && primary_ends(t) matches Some((_, head)) && in_tag(
                    t.doc.links,
                    head as int,
                )
            }),
    {
        let focused = if self.title_focused {
            match &self.title {
                Some(t) => Some(t),
                None => None,
            }
        } else {
            self.kind.focused_textbox()
        };
        match focused {
            Some(t) => match t.primary_caret() {
                Some((_, head)) => caret_in_tag(t.links(), head),
                None => false,
            },
            None => false,
        }
    }
}

/// `caret` is in one of the links that mark a tag, or right behind it.
pub open spec fn in_tag(links: Seq<Link>, caret: int) -> bool {
    exists|i: int|
        0 <= i < links.len() && is_tag_address((#[trigger] links[i]).url) && links[i].start < caret
            && caret <= links[i].end
}

fn caret_in_tag(links: &[LinkSpan], caret: usize) -> (r: bool)
    ensures
        r == in_tag(views(links@), caret as int),
{
    let ghost ls = views(links@);
    let mut i: usize = 0;
    while i < links.len()
        invariant
            i <= links.len(),
            ls == views(links@),
            forall|k: int|
                0 <= k < i ==> !(is_tag_address((#[trigger] ls[k]).url) && ls[k].start < caret
                    && caret <= ls[k].end),
        decreases links.len() - i,
    {
        assert(ls[i as int] == links@[i as int]@);
        let l = &links[i];
        if is_kept_tag_url(l.url.as_str()) && caret > l.range.start && caret <= l.range.end {
            return true;
        }
        i += 1;
    }
    false
}

// ---------------------------------------------------------------------------
// The title as a name
// ---------------------------------------------------------------------------

/// The first link from `k` on that marks a tag and ends at `end`.
pub open spec fn tag_ending_at(links: Seq<Link>, end: int, k: int) -> int
    decreases links.len() - k,
{
    if k < 0 || k >= links.len() {
        links.len() as int
    } else if is_tag_address(links[k].url) && links[k].end == end {
        k
    } else {
        tag_ending_at(links, end, k + 1)
    }
}

/// Where a title ends once the white space and the committed tags behind it are
/// cut off.
pub open spec fn name_end(b: Seq<u8>, links: Seq<Link>, end: int) -> int
    decreases end,
{
    let e = trimmed_end(b, end);
    let k = tag_ending_at(links, e, 0);
    if k < links.len() && 0 <= links[k].start < e && e <= end {
        name_end(b, links, links[k].start)
    } else {
        e
    }
}

/// The name that a title gives: its first line without the tags that close it;
/// nothing where that leaves nothing.
pub open spec fn title_name(t: TextModel) -> Option<Seq<u8>> {
    let end = name_end(t.doc.text, t.doc.links, t.heading_end());
    if end <= 0 {
        None
    } else {
        Some(t.doc.text.subrange(0, end))
    }
}

/// Every link that marks a tag lies between characters.
pub open spec fn tags_placed(t: TextModel) -> bool {
    forall|i: int|
        0 <= i < t.doc.links.len() && is_tag_address((#[trigger] t.doc.links[i]).url) ==> boundary(
            t.doc.text,
            t.doc.links[i].start,
        )
}

impl Cell {
    /// The name that the title gives: its first line without the committed tags
    /// that close it.
    pub fn heading_title(&self) -> (name: Option<String>)
        requires
            self.model().wf(),
            self.model().title matches Some(t) ==> tags_placed(t),
        ensures
            optional_bytes(name) == (match self.model().title {
                Some(t) => title_name(t),
                None => None,
            }),
    {
        let t = match &self.title {
            Some(t) => t,
            None => {
                return None;
            },
        };
        let ghost b = t@.doc.text;
        let ghost ls = t@.doc.links;
        let text = t.text();
        let links = t.links();
        let first: usize = text::find_byte(text, 10, 0);
        proof {
            lemma_utf8_valid(text@);
            lemma_boundary_ends(b);
            lemma_first_byte(b, 10, 0);
        }
        let mut end: usize = first;
        let mut more: bool = true;
        while more
            invariant
                b == utf8(text@),
                valid_utf8(b),
                ls == views(links@),
                first <= b.len(),
                end <= first,
                boundary(b, end as int),
                forall|i: int|
                    0 <= i < ls.len() && is_tag_address((#[trigger] ls[i]).url) ==> boundary(
                        b,
                        ls[i].start,
                    ),
                more ==> name_end(b, ls, end as int) == name_end(b, ls, first as int),
                !more ==> end == name_end(b, ls, first as int),
            decreases
                end,
                if more {
                    1int
                } else {
                    0int
                },
        {
            let trimmed: usize = trim_end_at(text, end);
            proof {
                lemma_trimmed_end(b, end as int);
            }
            let k: usize = find_tag_ending(links, trimmed);
            if k < links.len() {
                assert(ls[k as int] == links@[k as int]@);
                let start: usize = links[k].range.start;
                proof {
                    lemma_tag_ending_at(ls, trimmed as int, 0);
                }
                if start < trimmed {
                    end = start;
                } else {
                    end = trimmed;
                    more = false;
                }
            } else {
                end = trimmed;
                more = false;
            }
        }
        if end == 0 {
            return None;
        }
        Some(text::copy(text::slice(text, 0, end)))
    }
}

proof fn lemma_tag_ending_at(links: Seq<Link>, end: int, k: int)
    requires
        0 <= k,
    ensures
        tag_ending_at(links, end, k) < links.len() ==> 0 <= tag_ending_at(links, end, k)
            && is_tag_address(links[tag_ending_at(links, end, k)].url),
    decreases links.len() - k,
{
    if k < links.len() && !(is_tag_address(links[k].url) && links[k].end == end) {
        lemma_tag_ending_at(links, end, k + 1);
    }
}

fn find_tag_ending(links: &[LinkSpan], end: usize) -> (k: usize)
    ensures
        k == tag_ending_at(views(links@), end as int, 0),
        k <= links@.len(),
{
    let ghost ls = views(links@);
    let mut k: usize = 0;
    while k < links.len()
        invariant
            k <= links.len(),
            ls == views(links@),
            tag_ending_at(ls, end as int, 0) == tag_ending_at(ls, end as int, k as int),
        decreases links.len() - k,
    {
        assert(ls[k as int] == links@[k as int]@);
        if is_kept_tag_url(links[k].url.as_str()) && links[k].range.end == end {
            return k;
        }
        k += 1;
    }
    k
}

} // verus!
