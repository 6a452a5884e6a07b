//! `OutlineCell`: a flat list of bullets with explicit depth, and optionally a
//! read-only embed pinned above them.
use std::collections::HashSet;
use std::ops::Range;
use vstd::prelude::*;
use vstd::utf8::*;

use crate::text;
use crate::cell::KindModel;
use crate::cell::body::{any_untagged, link_urls, push_link_urls, tag_names, untagged};
use crate::cell::bullets::{
    ancestor, bullet_hit, bullet_pos, bullets_of, bullets_wf, caret_put, deep_run_end, docs_of,
    effectively_open, four_spaces, has_prev_sibling, keys_keep_the_focus_on_a_bullet, least_depth,
    least_shown_depth, lemma_bullet_pos, lemma_deep_run_end, lemma_least_depth, lemma_subtree_end,
    lines_joined, outline_doc_wf, readopted, rebased, repeated, shift_fits, shifted, shown_before,
    shown_from, spells, spells_any, subtree_end, tagged, text_of, texts, texts_collapsed,
    texts_mapped, two_spaces, zoomed, BulletDoc, BulletModel, BulletSelection, DragMode, ItemModel,
    OutlineDoc, OutlineDrag, OutlineModel, RowModel,
};
use crate::cell::common::{
    primary_mod, word_mod, Affinity, EditModel, Key, KeyEvent, Link, LinkSpan, Modifiers,
    SelectionSet,
};
use crate::cell::model::{
    after_mouse_up, after_wrap, control, DEFAULT_SCALE, lemma_collapsed_wf, line_count, placed,
    primary_ends, primary_line, with_link, Click, TextModel,
};
use crate::cell::reference::{EmbeddedReference, EmbedModel, ReferenceTarget};
use crate::cell::textbox::{bytes_of, optional_bytes, picked_view, TextBox, TextBoxSnapshot};
use crate::cell::urls::url_links;
use crate::cell::wrap::{
    decided, inline_tags, lemma_inline_tags, measure, parse_inline_tags, span, spans, Span,
};
use crate::ids::{new_id, Uuid};
use crate::text::{
    blank, boundary, lemma_after_ascii, lemma_boundary_ends, lemma_utf8_valid, utf8, views,
};

verus! {

/// One bullet of an outline.
pub struct Bullet {
    id: Uuid,
    textbox: TextBox,
    depth: u32,
    closed_at: Option<i64>,
    resurface_after: Option<i64>,
}

impl View for Bullet {
    type V = BulletModel;

    closed spec fn view(&self) -> BulletModel {
        BulletModel {
            id: self.id,
            text: self.textbox@,
            depth: self.depth,
            closed_at: self.closed_at,
            resurface_after: self.resurface_after,
        }
    }
}

impl Bullet {
    /// An open bullet without a schedule.
    pub fn new(id: Uuid, textbox: TextBox, depth: u32) -> (b: Bullet)
        ensures
            b@ == BulletModel::fresh(id, textbox@, depth),
    {
        Bullet { id, textbox, depth, closed_at: None, resurface_after: None }
    }

    pub fn id(&self) -> (r: Uuid)
        ensures
            r == self@.id,
    {
        self.id
    }

    pub fn depth(&self) -> (r: u32)
        ensures
            r == self@.depth,
    {
        self.depth
    }

    pub fn textbox(&self) -> (r: &TextBox)
        ensures
            (*r)@ == self@.text,
    {
        &self.textbox
    }

    /// The bullet's text, to be changed.
    pub fn textbox_mut(&mut self) -> (r: &mut TextBox)
        ensures
            (*r)@ == old(self)@.text,
            final(self)@ == old(self)@.saying(final(r)@),
    {
        &mut self.textbox
    }

    /// Whether the bullet itself is open; its ancestors are not asked.
    pub fn is_open(&self) -> (r: bool)
        ensures
            r == (self@.closed_at is None),
    {
        self.closed_at.is_none()
    }

    pub fn closed_at(&self) -> (r: Option<i64>)
        ensures
            r == self@.closed_at,
    {
        self.closed_at
    }

    pub fn set_closed_at(&mut self, closed_at: Option<i64>)
        ensures
            final(self)@ == (BulletModel { closed_at, ..old(self)@ }),
    {
        self.closed_at = closed_at;
    }

    pub fn resurface_after(&self) -> (r: Option<i64>)
        ensures
            r == self@.resurface_after,
    {
        self.resurface_after
    }

    pub fn set_resurface_after(&mut self, when: Option<i64>)
        ensures
            final(self)@ == (BulletModel { resurface_after: when, ..old(self)@ }),
    {
        self.resurface_after = when;
    }

    /// The address that the last press of the mouse button marked to be followed,
    /// handed out once.
    pub fn take_pending_link_url(&mut self) -> (url: Option<String>)
        ensures
            optional_bytes(url) == old(self)@.text.pending_url,
            final(self)@ == old(self)@.saying(
                TextModel { pending_url: None, ..old(self)@.text },
            ),
    {
        self.textbox.take_pending_link_url()
    }
}

/// An outline.
pub struct OutlineCell {
    bullets: Vec<Bullet>,
    focused_bullet: Uuid,
    drag: Option<OutlineDrag>,
    bullet_selection: Option<BulletSelection>,
    font_scale: u32,
    bullet_filter: Option<HashSet<Uuid>>,
    show_inactive: bool,
    reference_header: Option<EmbeddedReference>,
}

impl View for OutlineCell {
    type V = OutlineModel;

    closed spec fn view(&self) -> OutlineModel {
        OutlineModel {
            bullets: views(self.bullets@),
            focused: self.focused_bullet,
            drag: self.drag,
            selection: self.bullet_selection,
            scale: self.font_scale,
            filter: match self.bullet_filter {
                Some(s) => Some(s@),
                None => None,
            },
            show_inactive: self.show_inactive,
        }
    }
}

impl OutlineCell {
    /// The embed above the bullets.
    pub closed spec fn embed(self) -> Option<EmbedModel>
        decreases self,
    {
        match self.reference_header {
            Some(h) => Some(h.model()),
            None => None,
        }
    }

    // -----------------------------------------------------------------------
    // Construction
    // -----------------------------------------------------------------------

    /// An outline with one empty bullet of a fresh identity.
    pub fn new() -> (o: OutlineCell)
        ensures
            o@ == OutlineModel::fresh(o@.focused),
            o.embed() is None,
            o@.wf(),
    {
        OutlineCell::with_id(new_id())
    }

    /// An outline with one empty bullet.
    pub fn with_id(id: Uuid) -> (o: OutlineCell)
        ensures
            o@ == OutlineModel::fresh(id),
            o.embed() is None,
            o@.wf(),
    {
        let mut bullets: Vec<Bullet> = Vec::new();
        bullets.push(empty_bullet(id));
        let o = OutlineCell {
            bullets,
            focused_bullet: id,
            drag: None,
            bullet_selection: None,
            font_scale: DEFAULT_SCALE,
            bullet_filter: None,
            show_inactive: false,
            reference_header: None,
        };
        assert(o@ =~= OutlineModel::fresh(id));
        o
    }

    /// An outline around an embed: one empty bullet below it.
    pub fn with_envelope(target: ReferenceTarget) -> (o: OutlineCell)
        ensures
            o@ == OutlineModel::fresh(o@.focused),
            o.embed() == Some(EmbedModel::fresh(target)),
            o@.wf(),
    {
        let mut o = OutlineCell::new();
        o.reference_header = Some(EmbeddedReference::new(target));
        o
    }

    /// An outline of bullets that are there already.
    pub fn from_bullets(bullets: Vec<Bullet>) -> (o: OutlineCell)
        requires
            bullets_wf(views(bullets@)),
        ensures
            exists|ids: (Uuid, Uuid)| o@ == #[trigger] outline_of(views(bullets@), ids),
            o.embed() is None,
            o@.wf(),
    {
        OutlineCell::from_bullets_with_header(bullets, None)
    }

    /// An outline of bullets that are there already, around an embed.
    pub fn from_bullets_with_header(
        bullets: Vec<Bullet>,
        reference_header: Option<EmbeddedReference>,
    ) -> (o: OutlineCell)
        requires
            bullets_wf(views(bullets@)),
        ensures
            exists|ids: (Uuid, Uuid)| o@ == #[trigger] outline_of(views(bullets@), ids),
            o.embed() == (match reference_header {
                Some(h) => Some(h.model()),
                None => None,
            }),
            o@.wf(),
    {
        let a: Uuid = new_id();
        let b: Uuid = new_id();
        let o = OutlineCell::from_bullets_with_ids(bullets, reference_header, a, b);
        assert(o@ == outline_of(views(bullets@), (a, b)));
        o
    }

    /// An outline of bullets that are there already, around an embed. Where there
    /// are none, one empty bullet of the identity `bullet` is put in, and `focus`
    /// is what has the focus.
    pub fn from_bullets_with_ids(
        bullets: Vec<Bullet>,
        reference_header: Option<EmbeddedReference>,
        focus: Uuid,
        bullet: Uuid,
    ) -> (o: OutlineCell)
        requires
            bullets_wf(views(bullets@)),
        ensures
            o@ == outline_of(views(bullets@), (focus, bullet)),
            o.embed() == (match reference_header {
                Some(h) => Some(h.model()),
                None => None,
            }),
            o@.wf(),
    {
        let ghost bs = views(bullets@);
        let mut kept = bullets;
        let mut focused: Uuid = focus;
        if kept.len() == 0 {
            kept.push(empty_bullet(bullet));
            assert(views(kept@) =~= seq![
                BulletModel::fresh(bullet, TextModel::fresh(Seq::empty()), 0),
            ]);
        } else {
            assert(bs[0] == kept@[0]@);
            focused = kept[0].id;
        }
        let o = OutlineCell {
            bullets: kept,
            focused_bullet: focused,
            drag: None,
            bullet_selection: None,
            font_scale: DEFAULT_SCALE,
            bullet_filter: None,
            show_inactive: false,
            reference_header,
        };
        proof {
            lemma_fresh_wf();
            assert(o@ =~= outline_of(bs, (focus, bullet)));
        }
        o
    }

    // -----------------------------------------------------------------------
    // Reading
    // -----------------------------------------------------------------------

    pub fn bullets(&self) -> (r: &[Bullet])
        ensures
            views(r@) == self@.bullets,
    {
        self.bullets.as_slice()
    }

    /// Whether whole bullets are selected.
    pub fn has_bullet_selection(&self) -> (r: bool)
        ensures
            r == (self@.selection is Some),
    {
        self.bullet_selection.is_some()
    }

    pub fn reference_header(&self) -> (r: Option<&EmbeddedReference>)
        ensures
            (match r {
                Some(h) => Some((*h).model()),
                None => None,
            }) == self.embed(),
    {
        match &self.reference_header {
            Some(h) => Some(h),
            None => None,
        }
    }

    pub fn reference_header_mut(&mut self) -> (r: Option<&mut EmbeddedReference>)
        ensures
            final(self)@ == old(self)@,
            match r {
                Some(h) => old(self).embed() == Some((*h).model()) && final(self).embed() == Some(
                    final(h).model(),
                ),
                None => old(self).embed() is None && final(self).embed() is None,
            },
    {
        match &mut self.reference_header {
            Some(h) => Some(h),
            None => None,
        }
    }

    /// What is selected in the preview, with its links.
    pub fn copy_preview_selection_with_links(&self) -> (r: Option<(String, Vec<LinkSpan>)>)
        requires
            self.embed() matches Some(h) ==> h.wf(),
        ensures
            picked_view(r) == (match self.embed() {
                Some(h) => match h.cache {
                    Some(c) => (*c).picked(),
                    None => None,
                },
                None => None,
            }),
        decreases self,
    {
        match &self.reference_header {
            Some(h) => h.copy_primary_selection_with_links(),
            None => None,
        }
    }

    /// Whether a drag is going on.
    pub fn is_dragging(&self) -> (r: bool)
        ensures
            r == (self@.drag is Some),
    {
        self.drag.is_some()
    }

    /// Whether a drag that started in the preview is going on.
    pub fn is_dragging_header(&self) -> (r: bool)
        ensures
            r == (self@.drag matches Some(d) && d.mode == DragMode::Header),
    {
        match &self.drag {
            Some(d) => match d.mode {
                DragMode::Header => true,
                _ => false,
            },
            None => false,
        }
    }

    pub fn has_reference_header(&self) -> (r: bool)
        ensures
            r == (self.embed() is Some),
    {
        self.reference_header.is_some()
    }

    /// Sets the bullets that the current view shows; `None` for all.
    pub fn set_bullet_filter(&mut self, ids: Option<HashSet<Uuid>>)
        ensures
            final(self)@ == (OutlineModel {
                filter: match ids {
                    Some(s) => Some(s@),
                    None => None,
                },
                ..old(self)@
            }),
            final(self).embed() == old(self).embed(),
    {
        self.bullet_filter = ids;
    }

    /// Sets whether closed bullets are shown, dimmed, or left out.
    pub fn set_show_inactive(&mut self, on: bool)
        ensures
            final(self)@ == (OutlineModel { show_inactive: on, ..old(self)@ }),
            final(self).embed() == old(self).embed(),
    {
        self.show_inactive = on;
    }

    pub fn font_scale(&self) -> (r: u32)
        ensures
            r == self@.scale,
    {
        self.font_scale
    }

    /// The position of a bullet.
    pub fn bullet_idx(&self, bullet_id: Uuid) -> (r: Option<usize>)
        ensures
            r == (if bullet_pos(self@.bullets, bullet_id, 0) < self@.bullets.len() {
                Some(bullet_pos(self@.bullets, bullet_id, 0) as usize)
            } else {
                None
            }),
            r matches Some(i) ==> i < self@.bullets.len() && self@.bullets[i as int].id
                == bullet_id && i == bullet_pos(self@.bullets, bullet_id, 0),
    {
        let ghost bs = self@.bullets;
        let mut i: usize = 0;
        while i < self.bullets.len() && self.bullets[i].id != bullet_id
            invariant
                i <= self.bullets.len(),
                bs == views(self.bullets@),
                bullet_pos(bs, bullet_id, 0) == bullet_pos(bs, bullet_id, i as int),
            decreases self.bullets.len() - i,
        {
            assert(bs[i as int] == self.bullets@[i as int]@);
            i += 1;
        }
        if i < self.bullets.len() {
            assert(bs[i as int] == self.bullets@[i as int]@);
            Some(i)
        } else {
            None
        }
    }

    fn focused_index(&self) -> (r: Option<usize>)
        ensures
            match r {
                Some(i) => self@.has_focus() && i == self@.at() && i < self@.bullets.len(),
                None => !self@.has_focus(),
            },
    {
        self.bullet_idx(self.focused_bullet)
    }

    pub fn focused_bullet_id(&self) -> (r: Uuid)
        ensures
            r == self@.focused,
    {
        self.focused_bullet
    }

    /// The focused bullet's text.
    pub fn focused_textbox(&self) -> (r: Option<&TextBox>)
        ensures
            match r {
                Some(t) => self@.has_focus() && (*t)@ == self@.bullets[self@.at()].text,
                None => !self@.has_focus(),
            },
    {
        match self.focused_index() {
            Some(i) => {
                assert(self@.bullets[i as int] == self.bullets@[i as int]@);
                Some(&self.bullets[i].textbox)
            },
            None => None,
        }
    }

    /// The text of the focused bullet and where its caret is.
    pub fn focused_text_and_caret(&self) -> (r: Option<(&str, usize)>)
        ensures
            match r {
                Some((text, head)) => {
                    &&& self@.has_focus()
                    &&& utf8(text@) == self@.bullets[self@.at()].text.doc.text
                    &&& primary_ends(self@.bullets[self@.at()].text) matches Some((_, h)) && h
                        == head
                },
                None => !self@.has_focus() || primary_ends(self@.bullets[self@.at()].text) is None,
            },
    {
        match self.focused_index() {
            Some(i) => {
                assert(self@.bullets[i as int] == self.bullets@[i as int]@);
                match self.bullets[i].textbox.primary_caret() {
                    Some((_, h)) => Some((self.bullets[i].textbox.text(), h)),
                    None => None,
                }
            },
            None => None,
        }
    }

    /// The positions of a bullet and its subtree.
    pub fn subtree_range(&self, bullet_id: Uuid) -> (r: Option<Range<usize>>)
        ensures
            match r {
                Some(r) => {
                    let i = bullet_pos(self@.bullets, bullet_id, 0);
                    &&& i < self@.bullets.len()
                    &&& r.start == i
                    &&& r.end == subtree_end(self@.bullets, self@.bullets[i].depth, i + 1)
                    &&& r.start < r.end <= self@.bullets.len()
                },
                None => bullet_pos(self@.bullets, bullet_id, 0) >= self@.bullets.len(),
            },
    {
        match self.bullet_idx(bullet_id) {
            Some(i) => {
                assert(self@.bullets[i as int] == self.bullets@[i as int]@);
                let n: usize = self.bullets.len();
                Some(i..self.subtree_end_from(self.bullets[i].depth, i + 1))
            },
            None => None,
        }
    }

    fn subtree_end_from(&self, depth: u32, from: usize) -> (k: usize)
        requires
            from <= self@.bullets.len(),
        ensures
            k == subtree_end(self@.bullets, depth, from as int),
            from <= k <= self@.bullets.len(),
    {
        let ghost bs = self@.bullets;
        let mut k: usize = from;
        while k < self.bullets.len() && self.bullets[k].depth > depth
            invariant
                from <= k <= self.bullets.len(),
                bs == views(self.bullets@),
                subtree_end(bs, depth, from as int) == subtree_end(bs, depth, k as int),
            decreases self.bullets.len() - k,
        {
            assert(bs[k as int] == self.bullets@[k as int]@);
            k += 1;
        }
        if k < self.bullets.len() {
            assert(bs[k as int] == self.bullets@[k as int]@);
        }
        k
    }

    /// For every bullet whether it and all its ancestors are open.
    pub fn compute_effective_open(&self) -> (open: Vec<bool>)
        ensures
            open@ == Seq::new(
                self@.bullets.len(),
                |i: int| effectively_open(self@.bullets, i),
            ),
    {
        let ghost bs = self@.bullets;
        let mut open: Vec<bool> = Vec::new();
        let mut chain: Vec<(u32, bool)> = Vec::new();
        let ghost mut at = Seq::<int>::empty();
        let mut i: usize = 0;
        while i < self.bullets.len()
            invariant
                i <= self.bullets.len(),
                bs == views(self.bullets@),
                open@ == Seq::new(i as nat, |j: int| effectively_open(bs, j)),
                chain_of(bs, i as int, at, chain@),
                forall|j: int|
                    0 <= j < i && (forall|k: int| j < k < i ==> (#[trigger] bs[k]).depth
                        > bs[j].depth) ==> #[trigger] at.contains(j),
            decreases self.bullets.len() - i,
        {
            assert(bs[i as int] == self.bullets@[i as int]@);
            let depth: u32 = self.bullets[i].depth;
            while chain.len() > 0 && chain[chain.len() - 1].0 >= depth
                invariant
                    i < self.bullets.len(),
                    bs == views(self.bullets@),
                    depth == bs[i as int].depth,
                    chain_of(bs, i as int, at, chain@),
                    forall|j: int|
                        0 <= j < i && (forall|k: int| j < k <= i ==> (#[trigger] bs[k]).depth
                            > bs[j].depth) ==> #[trigger] at.contains(j),
                decreases chain.len(),
            {
                proof {
                    let last = at.len() - 1;
                    let popped = at[last];
                    assert(chain@[last].0 == bs[popped].depth);
                    let rest = at.drop_last();
                    assert forall|j: int|
                        0 <= j < i && (forall|k: int| j < k <= i ==> (#[trigger] bs[k]).depth
                            > bs[j].depth) implies #[trigger] rest.contains(j) by {
                        assert(at.contains(j));
                        let p = choose|p: int| 0 <= p < at.len() && at[p] == j;
                        assert(bs[i as int].depth > bs[j].depth);
                        assert(p != last);
                        assert(rest[p] == j);
                    }
                    at = rest;
                }
                let _ = chain.pop();
            }
            let mut ancestors_open: bool = true;
            let mut k: usize = 0;
            while k < chain.len()
                invariant
                    k <= chain.len(),
                    ancestors_open == (forall|p: int| 0 <= p < k ==> (#[trigger] chain@[p]).1),
                decreases chain.len() - k,
            {
                if !chain[k].1 {
                    ancestors_open = false;
                }
                k += 1;
            }
            let self_open: bool = self.bullets[i].closed_at.is_none();
            open.push(self_open && ancestors_open);
            proof {
                assert(effectively_open(bs, i as int) == (self_open && ancestors_open)) by {
                    if ancestors_open {
                        assert forall|j: int| #[trigger] ancestor(bs, j, i as int) implies
                            bs[j].closed_at is None by {
                            assert(at.contains(j));
                            let p = choose|p: int| 0 <= p < at.len() && at[p] == j;
                            assert(chain@[p].1);
                        }
                    } else {
                        let p = choose|p: int| 0 <= p < chain@.len() && !(#[trigger] chain@[p]).1;
                        let j = at[p];
                        assert(bs[j].closed_at is Some);
                        assert(ancestor(bs, j, i as int)) by {
                            assert(chain@[p].0 < depth) by {
                                lemma_chain_rises(bs, i as int, at, chain@, p);
                            }
                        }
                    }
                }
                assert(open@ =~= Seq::new((i + 1) as nat, |j: int| effectively_open(bs, j)));
            }
            let ghost was = at;
            chain.push((depth, self_open));
            proof {
                at = at.push(i as int);
                assert forall|p: int| 0 <= p < at.len() implies chain_link(
                    bs,
                    i + 1,
                    #[trigger] at[p],
                    chain@[p],
                ) by {
                    if p < was.len() {
                        assert(chain_link(bs, i as int, was[p], chain@[p]));
                        lemma_chain_rises_at(bs, i as int, was, chain@.drop_last(), p, depth);
                    }
                }
                assert forall|p: int, q: int| 0 <= p < q < at.len() implies at[p] < at[q] by {
                    if q == was.len() {
                        assert(chain_link(bs, i as int, was[p], chain@[p]));
                    }
                }
                assert forall|j: int|
                    0 <= j < i + 1 && (forall|k: int| j < k < i + 1 ==> (#[trigger] bs[k]).depth
                        > bs[j].depth) implies #[trigger] at.contains(j) by {
                    if j == i {
                        assert(at[was.len() as int] == i);
                    } else {
                        assert(was.contains(j));
                        let p = choose|p: int| 0 <= p < was.len() && was[p] == j;
                        assert(at[p] == j);
                    }
                }
            }
            i += 1;
        }
        open
    }

    // -----------------------------------------------------------------------
    // Editing
    // -----------------------------------------------------------------------

    /// Puts the caret of bullet `i` at `at`.
    fn put_caret(&mut self, i: usize, at: usize)
        requires
            bullets_wf(old(self)@.bullets),
            i < old(self)@.bullets.len(),
        ensures
            final(self)@ == old(self)@.saying(
                i as int,
                caret_put(old(self)@.bullets[i as int].text, at as int),
            ),
            final(self).embed() == old(self).embed(),
            bullets_wf(final(self)@.bullets),
    {
        let ghost before = self@;
        assert(before.bullets[i as int] == self.bullets@[i as int]@);
        self.bullets[i].textbox.set_caret_at(at);
        assert(self@ =~= before.saying(
            i as int,
            caret_put(before.bullets[i as int].text, at as int),
        ));
    }

    /// Moves the bullets from `lo` to `hi` by one level.
    fn shift(&mut self, lo: usize, hi: usize, deeper: bool)
        requires
            old(self)@.wf(),
            lo <= hi <= old(self)@.bullets.len(),
            shift_fits(
                old(self)@.bullets,
                lo as int,
                hi as int,
                if deeper {
                    1
                } else {
                    -1
                },
            ),
        ensures
            final(self)@ == old(self)@.listing(
                shifted(
                    old(self)@.bullets,
                    lo as int,
                    hi as int,
                    if deeper {
                        1
                    } else {
                        -1
                    },
                ),
            ),
            final(self).embed() == old(self).embed(),
            final(self)@.wf(),
    {
        let ghost by: int = if deeper {
            1
        } else {
            -1
        };
        let ghost before = self@;
        let ghost bs = before.bullets;
        let ghost e = self.embed();
        let mut i: usize = lo;
        assert(views(self.bullets@) =~= shifted(bs, lo as int, lo as int, by));
        while i < hi
            invariant
                lo <= i <= hi,
                hi <= bs.len(),
                bs == before.bullets,
                before.wf(),
                by == (if deeper {
                    1int
                } else {
                    -1int
                }),
                shift_fits(bs, lo as int, hi as int, by),
                self.bullets@.len() == bs.len(),
                views(self.bullets@) == shifted(bs, lo as int, i as int, by),
                self@ == before.listing(views(self.bullets@)),
                self.embed() == e,
            decreases hi - i,
        {
            assert(self.bullets@[i as int]@ == shifted(bs, lo as int, i as int, by)[i as int]);
            assert(bs[i as int].depth == self.bullets@[i as int].depth);
            let ghost held = self.bullets@;
            if deeper {
                self.bullets[i].depth += 1;
            } else {
                self.bullets[i].depth -= 1;
            }
            proof {
                assert(self.bullets@[i as int]@ == bs[i as int].at_depth(
                    bs[i as int].depth + by,
                ));
                assert forall|k: int| 0 <= k < bs.len() implies views(self.bullets@)[k] == shifted(
                    bs,
                    lo as int,
                    i + 1,
                    by,
                )[k] by {
                    assert(views(held)[k] == held[k]@);
                }
            }
            i += 1;
            assert(views(self.bullets@) =~= shifted(bs, lo as int, i as int, by));
            assert(self@ =~= before.listing(views(self.bullets@)));
        }
        assert forall|k: int| 0 <= k < bs.len() implies (#[trigger] self@.bullets[k]).text.wf() by {
            assert(bs[k].text.wf());
        }
    }

    /// Splits the focused bullet at its caret; the new bullet gets a fresh
    /// identity. Returns whether there was a bullet to split.
    pub fn split_focused(&mut self, now: u64) -> (r: bool)
        requires
            old(self)@.wf(),
            forall|id: Uuid| (#[trigger] old(self)@.split(id, now)).fits,
        ensures
            exists|id: Uuid|
                {
                    let step = #[trigger] old(self)@.split(id, now);
                    final(self)@ == step.m && r == step.done
                },
            final(self).embed() == old(self).embed(),
            final(self)@.wf(),
    {
        let id: Uuid = new_id();
        assert(old(self)@.split(id, now).fits);
        let r: bool = self.split_focused_with(id, now);
        assert(self@ == old(self)@.split(id, now).m);
        r
    }

    /// Splits the focused bullet at its caret into itself and a bullet `id`.
    pub fn split_focused_with(&mut self, id: Uuid, now: u64) -> (r: bool)
        requires
            old(self)@.wf(),
            old(self)@.split(id, now).fits,
        ensures
            final(self)@ == old(self)@.split(id, now).m,
            r == old(self)@.split(id, now).done,
            final(self).embed() == old(self).embed(),
            final(self)@.wf(),
    {
        let ghost before = self@;
        let idx: usize = match self.focused_index() {
            Some(i) => i,
            None => {
                return false;
            },
        };
        let ghost b = before.bullets[idx as int];
        assert(b == self.bullets@[idx as int]@);
        assert(b.text.wf());
        let ghost t = b.text.selection_deleted(now);
        let count: usize = self.bullets.len();
        self.bullets[idx].textbox.delete_selection(now);
        assert(self.bullets@[idx as int]@.text == t);
        assert(self@ =~= before.saying(idx as int, t));
        let head: usize = match self.bullets[idx].textbox.primary_caret() {
            Some((_, h)) => h,
            None => {
                return false;
            },
        };
        proof {
            assert(placed(t.doc.text, t.doc.sels.items[t.doc.sels.primary]));
            assert(boundary(t.doc.text, head as int));
            lemma_boundary_ends(t.doc.text);
        }
        let text = text::copy(self.bullets[idx].textbox.text());
        let n: usize = text::len(text.as_str());
        let prefix = text::copy(text::slice(text.as_str(), 0, head));
        let suffix = text::slice(text.as_str(), head, n);
        let depth: u32 = self.bullets[idx].depth;
        let scale: u32 = self.bullets[idx].textbox.font_scale();
        let suffix_links = self.bullets[idx].textbox.split_links_at(head);
        self.bullets[idx].textbox.replace_text(prefix, now);
        self.bullets[idx].textbox.set_caret_at(head);
        let ghost front = self.bullets@[idx as int]@;
        assert(views(self.bullets@) =~= before.bullets.update(idx as int, front));
        let mut new_tb = text_box_of(suffix, suffix_links, scale);
        new_tb.set_caret_at(0);
        let ghost back = BulletModel::fresh(id, new_tb@, depth);
        let ghost held = self.bullets@;
        self.bullets.insert(idx + 1, Bullet::new(id, new_tb, depth));
        proof {
            assert(views(self.bullets@) =~= views(held).insert(idx + 1, back));
        }
        self.focused_bullet = id;
        proof {
            let step = before.split(id, now);
            assert(step.m.bullets =~= self@.bullets);
            assert(self@ =~= step.m);
            assert forall|k: int| 0 <= k < self@.bullets.len() implies (
            #[trigger] self@.bullets[k]).text.wf() by {
                if k <= idx {
                    assert(self@.bullets[k] == views(held)[k]);
                    if k != idx {
                        assert(before.bullets[k].text.wf());
                    }
                } else if k > idx + 1 {
                    assert(self@.bullets[k] == views(held)[k - 1]);
                    assert(before.bullets[k - 1].text.wf());
                }
            }
        }
        true
    }

    fn has_sibling_before(&self, depth: u32, from: usize) -> (r: bool)
        requires
            from <= self@.bullets.len(),
        ensures
            r == has_prev_sibling(self@.bullets, depth, from as int),
    {
        let ghost bs = self@.bullets;
        let mut j: usize = from;
        while j > 0
            invariant
                j <= from <= bs.len(),
                bs == views(self.bullets@),
                has_prev_sibling(bs, depth, from as int) == has_prev_sibling(bs, depth, j as int),
            decreases j,
        {
            assert(bs[j - 1] == self.bullets@[j - 1]@);
            if self.bullets[j - 1].depth == depth {
                return true;
            }
            if self.bullets[j - 1].depth < depth {
                return false;
            }
            j -= 1;
        }
        false
    }

    fn indent_focused(&mut self) -> (r: bool)
        requires
            old(self)@.wf(),
            old(self)@.indented().fits,
        ensures
            final(self)@ == old(self)@.indented().m,
            r == old(self)@.indented().done,
            final(self).embed() == old(self).embed(),
            final(self)@.wf(),
    {
        let n: usize = self.bullets.len();
        let idx: usize = match self.focused_index() {
            Some(i) => i,
            None => {
                return false;
            },
        };
        assert(self@.bullets[idx as int] == self.bullets@[idx as int]@);
        let depth: u32 = self.bullets[idx].depth;
        if !self.has_sibling_before(depth, idx) {
            return false;
        }
        let end: usize = self.subtree_end_from(depth, idx + 1);
        self.shift(idx, end, true);
        true
    }

    fn outdent_focused(&mut self) -> (r: bool)
        requires
            old(self)@.wf(),
        ensures
            final(self)@ == old(self)@.outdented().m,
            r == old(self)@.outdented().done,
            final(self).embed() == old(self).embed(),
            final(self)@.wf(),
    {
        let n: usize = self.bullets.len();
        let idx: usize = match self.focused_index() {
            Some(i) => i,
            None => {
                return false;
            },
        };
        assert(self@.bullets[idx as int] == self.bullets@[idx as int]@);
        let depth: u32 = self.bullets[idx].depth;
        if depth == 0 {
            return false;
        }
        let end: usize = self.subtree_end_from(depth, idx + 1);
        proof {
            lemma_subtree_end(self@.bullets, depth, idx + 1);
        }
        self.shift(idx, end, false);
        true
    }

    /// The first and last bullet of the selection.
    fn selected_range(&self) -> (r: Option<(usize, usize)>)
        ensures
            match r {
                Some((lo, hi)) => self@.selected() == Some((lo as int, hi as int)) && lo <= hi
                    < self@.bullets.len(),
                None => self@.selected() is None,
            },
    {
        let s: BulletSelection = match self.bullet_selection {
            Some(s) => s,
            None => {
                return None;
            },
        };
        let a: usize = match self.bullet_idx(s.anchor_id) {
            Some(a) => a,
            None => {
                return None;
            },
        };
        let h: usize = match self.bullet_idx(s.head_id) {
            Some(h) => h,
            None => {
                return None;
            },
        };
        if a <= h {
            Some((a, h))
        } else {
            Some((h, a))
        }
    }

    fn indent_bullet_selection(&mut self) -> (r: bool)
        requires
            old(self)@.wf(),
            old(self)@.selection_indented().fits,
        ensures
            final(self)@ == old(self)@.selection_indented().m,
            r == old(self)@.selection_indented().done,
            final(self).embed() == old(self).embed(),
            final(self)@.wf(),
    {
        let n: usize = self.bullets.len();
        let (lo, hi) = match self.selected_range() {
            Some(r) => r,
            None => {
                return false;
            },
        };
        assert(self@.bullets[lo as int] == self.bullets@[lo as int]@);
        assert(self@.bullets[hi as int] == self.bullets@[hi as int]@);
        if !self.has_sibling_before(self.bullets[lo].depth, lo) {
            return false;
        }
        let end: usize = self.subtree_end_from(self.bullets[hi].depth, hi + 1);
        self.shift(lo, end, true);
        true
    }

    fn outdent_bullet_selection(&mut self) -> (r: bool)
        requires
            old(self)@.wf(),
        ensures
            final(self)@ == old(self)@.selection_outdented().m,
            r == old(self)@.selection_outdented().done,
            final(self).embed() == old(self).embed(),
            final(self)@.wf(),
    {
        let n: usize = self.bullets.len();
        let (lo, hi) = match self.selected_range() {
            Some(r) => r,
            None => {
                return false;
            },
        };
        let ghost bs = self@.bullets;
        let mut i: usize = lo;
        while i <= hi
            invariant
                lo <= i <= hi + 1,
                hi < n,
                n == self.bullets.len(),
                bs == views(self.bullets@),
                bs == self@.bullets,
                self@ == old(self)@,
                self@.selected() == Some((lo as int, hi as int)),
                self.embed() == old(self).embed(),
                self@.wf(),
                forall|k: int| lo <= k < i ==> (#[trigger] bs[k]).depth > 0,
            decreases hi + 1 - i,
        {
            assert(bs[i as int] == self.bullets@[i as int]@);
            if self.bullets[i].depth == 0 {
                assert(self@.any_at_top(lo as int, hi as int));
                return false;
            }
            i += 1;
        }
        assert(!self@.any_at_top(lo as int, hi as int));
        assert(bs[hi as int] == self.bullets@[hi as int]@);
        let end: usize = self.subtree_end_from(self.bullets[hi].depth, hi + 1);
        proof {
            lemma_subtree_end(bs, bs[hi as int].depth, hi + 1);
        }
        self.shift(lo, end, false);
        true
    }

    /// Moves bullets behind a gap at `lo` up until the first of them has a parent.
    fn readopt(&mut self, lo: usize)
        requires
            bullets_wf(old(self)@.bullets),
            lo <= old(self)@.bullets.len(),
        ensures
            final(self)@ == old(self)@.listing(readopted(old(self)@.bullets, lo as int)),
            final(self).embed() == old(self).embed(),
            bullets_wf(final(self)@.bullets),
            final(self)@.bullets.len() == old(self)@.bullets.len(),
    {
        let ghost before = self@;
        let ghost bs = before.bullets;
        let ghost e = self.embed();
        assert(before.listing(bs) =~= before);
        if lo >= self.bullets.len() {
            return ;
        }
        assert(bs[lo as int] == self.bullets@[lo as int]@);
        let front: u32 = self.bullets[lo].depth;
        let delta: u32 = if lo == 0 {
            front
        } else {
            assert(bs[lo - 1] == self.bullets@[lo - 1]@);
            let above: u32 = self.bullets[lo - 1].depth;
            if front > above {
                front - above - 1
            } else {
                0
            }
        };
        if delta == 0 {
            return ;
        }
        let mut i: usize = lo;
        proof {
            lemma_deep_run_end(bs, front, lo as int);
            assert(views(self.bullets@) =~= shifted(bs, lo as int, lo as int, -delta));
        }
        while i < self.bullets.len() && self.bullets[i].depth >= front
            invariant
                lo <= i <= self.bullets.len(),
                0 < delta <= front,
                bs == before.bullets,
                bullets_wf(bs),
                self.bullets@.len() == bs.len(),
                deep_run_end(bs, front, lo as int) == deep_run_end(bs, front, i as int),
                views(self.bullets@) == shifted(bs, lo as int, i as int, -delta),
                self@ == before.listing(views(self.bullets@)),
                self.embed() == e,
            decreases self.bullets.len() - i,
        {
            assert(self.bullets@[i as int]@ == shifted(bs, lo as int, i as int, -delta)[i as int]);
            assert(bs[i as int].depth == self.bullets@[i as int].depth);
            let ghost held = self.bullets@;
            self.bullets[i].depth -= delta;
            proof {
                assert(self.bullets@[i as int]@ == bs[i as int].at_depth(
                    bs[i as int].depth - delta,
                ));
                assert forall|k: int| 0 <= k < bs.len() implies views(self.bullets@)[k] == shifted(
                    bs,
                    lo as int,
                    i + 1,
                    -delta,
                )[k] by {
                    assert(views(held)[k] == held[k]@);
                }
            }
            i += 1;
            assert(views(self.bullets@) =~= shifted(bs, lo as int, i as int, -delta));
            assert(self@ =~= before.listing(views(self.bullets@)));
        }
        proof {
            if i < bs.len() {
                assert(self.bullets@[i as int]@ == shifted(
                    bs,
                    lo as int,
                    i as int,
                    -delta,
                )[i as int]);
                assert(bs[i as int].depth == self.bullets@[i as int].depth);
            }
            assert(deep_run_end(bs, front, lo as int) == i);
            assert(self@.bullets =~= readopted(bs, lo as int));
            assert forall|k: int| 0 <= k < bs.len() implies (
            #[trigger] self@.bullets[k]).text.wf() by {
                assert(bs[k].text.wf());
            }
        }
    }

    fn delete_bullet_selection_with(&mut self, id: Uuid) -> (r: bool)
        requires
            old(self)@.wf(),
        ensures
            final(self)@ == old(self)@.selection_deleted(id).m,
            r == old(self)@.selection_deleted(id).done,
            final(self).embed() == old(self).embed(),
            final(self)@.wf(),
    {
        let ghost before = self@;
        let ghost bs = before.bullets;
        let picked = self.selected_range();
        self.bullet_selection = None;
        let (lo, hi) = match picked {
            Some(r) => r,
            None => {
                assert(self@ =~= before.selecting(None));
                return false;
            },
        };
        let ghost rest = bs.subrange(0, lo as int) + bs.subrange(hi + 1, bs.len() as int);
        let mut left: usize = hi - lo;
        let _ = self.bullets.remove(lo);
        proof {
            assert(views(self.bullets@) =~= bs.subrange(0, lo as int) + bs.subrange(
                hi + 1 - left,
                bs.len() as int,
            ));
        }
        while left > 0
            invariant
                lo + left <= hi,
                hi < bs.len(),
                views(self.bullets@) == bs.subrange(0, lo as int) + bs.subrange(
                    hi + 1 - left,
                    bs.len() as int,
                ),
                self@ == before.selecting(None).listing(views(self.bullets@)),
                self.embed() == old(self).embed(),
            decreases left,
        {
            let ghost held = self.bullets@;
            assert(views(held).len() == lo + bs.len() - (hi + 1 - left));
            let _ = self.bullets.remove(lo);
            left -= 1;
            assert(views(self.bullets@) =~= views(held).remove(lo as int));
            assert(views(self.bullets@) =~= bs.subrange(0, lo as int) + bs.subrange(
                hi + 1 - left,
                bs.len() as int,
            ));
        }
        assert(views(self.bullets@) == rest);
        let ghost m = before.selecting(None);
        assert(self@ =~= m.listing(rest));
        assert(bullets_wf(rest)) by {
            assert forall|k: int| 0 <= k < rest.len() implies (#[trigger] rest[k]).text.wf() by {
                if k < lo {
                    assert(bs[k].text.wf());
                } else {
                    assert(bs[k - lo + hi + 1].text.wf());
                }
            }
        }
        if self.bullets.len() == 0 {
            let mut b = empty_bullet(id);
            b.textbox.set_font_scale(self.font_scale);
            let ghost bm = b@;
            self.bullets.push(b);
            self.focused_bullet = id;
            proof {
                assert(views(self.bullets@) =~= seq![bm]);
                assert(self@ =~= before.selection_deleted(id).m);
            }
            return true;
        }
        self.readopt(lo);
        let ghost adopted = self@;
        if lo > 0 {
            assert(adopted.bullets[lo - 1] == rest[lo - 1]);
            assert(adopted.bullets[lo - 1] == self.bullets@[lo - 1]@);
            let end: usize = text::len(self.bullets[lo - 1].textbox.text());
            self.put_caret(lo - 1, end);
            assert(self@.bullets.len() == adopted.bullets.len());
            assert(self.bullets@.len() == self@.bullets.len());
            assert(self@.bullets[lo - 1] == self.bullets@[lo - 1]@);
            self.focused_bullet = self.bullets[lo - 1].id;
        } else {
            self.put_caret(0, 0);
            assert(self@.bullets.len() == adopted.bullets.len());
            assert(self.bullets@.len() == self@.bullets.len());
            assert(self@.bullets[0] == self.bullets@[0]@);
            self.focused_bullet = self.bullets[0].id;
        }
        assert(self@ =~= before.selection_deleted(id).m);
        true
    }

    fn extend_bullet_selection(&mut self, down: bool) -> (r: bool)
        requires
            old(self)@.wf(),
        ensures
            final(self)@ == old(self)@.selection_extended(down).m,
            r == old(self)@.selection_extended(down).done,
            final(self).embed() == old(self).embed(),
            final(self)@.wf(),
    {
        let s: BulletSelection = match self.bullet_selection {
            Some(s) => s,
            None => {
                return false;
            },
        };
        let n: usize = self.bullets.len();
        let h: usize = match self.bullet_idx(s.head_id) {
            Some(h) => h,
            None => {
                return false;
            },
        };
        if (down && h + 1 >= n) || (!down && h == 0) {
            return false;
        }
        let to: usize = if down {
            h + 1
        } else {
            h - 1
        };
        assert(self@.bullets[to as int] == self.bullets@[to as int]@);
        let head_id: Uuid = self.bullets[to].id;
        self.bullet_selection = Some(BulletSelection { anchor_id: s.anchor_id, head_id });
        self.focused_bullet = head_id;
        true
    }

    fn promote_bullet_sel(&mut self, down: bool) -> (r: bool)
        requires
            old(self)@.wf(),
        ensures
            final(self)@ == old(self)@.selection_begun(down).m,
            r == old(self)@.selection_begun(down).done,
            final(self).embed() == old(self).embed(),
            final(self)@.wf(),
    {
        let n: usize = self.bullets.len();
        let idx: usize = match self.focused_index() {
            Some(i) => i,
            None => {
                return false;
            },
        };
        if (down && idx + 1 >= n) || (!down && idx == 0) {
            return false;
        }
        let to: usize = if down {
            idx + 1
        } else {
            idx - 1
        };
        assert(self@.bullets[to as int] == self.bullets@[to as int]@);
        assert(self@.bullets[idx as int] == self.bullets@[idx as int]@);
        let head_id: Uuid = self.bullets[to].id;
        self.bullet_selection = Some(
            BulletSelection { anchor_id: self.bullets[idx].id, head_id },
        );
        self.focused_bullet = head_id;
        true
    }

    fn merge_focused_into_prev(&mut self) -> (r: bool)
        requires
            old(self)@.wf(),
            old(self)@.merged_up().fits,
        ensures
            final(self)@ == old(self)@.merged_up().m,
            r == old(self)@.merged_up().done,
            final(self).embed() == old(self).embed(),
            final(self)@.wf(),
    {
        let ghost before = self@;
        let n: usize = self.bullets.len();
        let idx: usize = match self.focused_index() {
            Some(i) => i,
            None => {
                return false;
            },
        };
        if idx == 0 {
            return false;
        }
        assert(before.bullets[idx as int] == self.bullets@[idx as int]@);
        if idx + 1 < n {
            assert(before.bullets[idx + 1] == self.bullets@[idx + 1]@);
            if self.bullets[idx + 1].depth > self.bullets[idx].depth {
                return false;
            }
        }
        let prev: usize = idx - 1;
        assert(before.bullets[prev as int] == self.bullets@[prev as int]@);
        assert(before.bullets[prev as int].text.wf());
        let prev_id: Uuid = self.bullets[prev].id;
        let prev_len: usize = text::len(self.bullets[prev].textbox.text());
        let gone = self.bullets.remove(idx);
        assert(views(self.bullets@) =~= before.bullets.remove(idx as int));
        assert(self.bullets@[prev as int]@ == before.bullets[prev as int]);
        let links = copy_links(gone.textbox.links());
        self.bullets[prev].textbox.append_with_links(gone.textbox.text(), links);
        self.bullets[prev].textbox.set_caret_at(prev_len);
        self.focused_bullet = prev_id;
        proof {
            let step = before.merged_up();
            assert(self@.bullets =~= step.m.bullets);
            assert(self@ =~= step.m);
            assert forall|k: int| 0 <= k < self@.bullets.len() implies (
            #[trigger] self@.bullets[k]).text.wf() by {
                if k < prev {
                    assert(before.bullets[k].text.wf());
                } else if k > prev {
                    assert(before.bullets[k + 1].text.wf());
                }
            }
        }
        true
    }

    fn spill(&mut self, down: bool) -> (r: bool)
        requires
            old(self)@.wf(),
        ensures
            final(self)@ == old(self)@.spilled(down).m,
            r == old(self)@.spilled(down).done,
            final(self).embed() == old(self).embed(),
            final(self)@.wf(),
    {
        let ghost before = self@;
        let n: usize = self.bullets.len();
        let idx: usize = match self.focused_index() {
            Some(i) => i,
            None => {
                return false;
            },
        };
        if (down && idx + 1 >= n) || (!down && idx == 0) {
            return false;
        }
        let to: usize = if down {
            idx + 1
        } else {
            idx - 1
        };
        assert(before.bullets[to as int] == self.bullets@[to as int]@);
        let at: usize = if down {
            0
        } else {
            text::len(self.bullets[to].textbox.text())
        };
        self.put_caret(to, at);
        assert(self@.bullets.len() == before.bullets.len());
        assert(self.bullets@.len() == self@.bullets.len());
        assert(self@.bullets[to as int] == self.bullets@[to as int]@);
        self.focused_bullet = self.bullets[to].id;
        true
    }

    // -----------------------------------------------------------------------
    // Keys
    // -----------------------------------------------------------------------

    fn type_in_focused(&mut self, event: &KeyEvent, mods: Modifiers, now: u64) -> (r: bool)
        requires
            old(self)@.wf(),
            old(self)@.typed(*event, mods, now).fits,
        ensures
            final(self)@ == old(self)@.typed(*event, mods, now).m,
            r == old(self)@.typed(*event, mods, now).done,
            final(self).embed() == old(self).embed(),
            final(self)@.wf(),
    {
        let ghost before = self@;
        match self.focused_index() {
            Some(i) => {
                assert(before.bullets[i as int] == self.bullets@[i as int]@);
                assert(before.bullets[i as int].text.wf());
                let r: bool = self.bullets[i].textbox.handle_key(event, mods, now);
                assert(self@ =~= before.typed(*event, mods, now).m);
                r
            },
            None => false,
        }
    }

    fn key_on_selection_with(
        &mut self,
        event: &KeyEvent,
        mods: Modifiers,
        a: Uuid,
        b: Uuid,
        now: u64,
    ) -> (r: bool)
        requires
            old(self)@.wf(),
            old(self)@.key_on_selection(*event, mods, (a, b), now).fits,
        ensures
            final(self)@ == old(self)@.key_on_selection(*event, mods, (a, b), now).m,
            r == old(self)@.key_on_selection(*event, mods, (a, b), now).done,
            final(self).embed() == old(self).embed(),
            final(self)@.wf(),
    {
        match event.key {
            Key::Backspace | Key::Delete => self.delete_bullet_selection_with(a),
            Key::Tab => {
                if mods.shift {
                    self.outdent_bullet_selection()
                } else {
                    self.indent_bullet_selection()
                }
            },
            Key::Modifier => false,
            _ => {
                if matches!(event.key, Key::ArrowUp) && mods.shift {
                    self.extend_bullet_selection(false)
                } else if matches!(event.key, Key::ArrowDown) && mods.shift {
                    self.extend_bullet_selection(true)
                } else if matches!(event.key, Key::Enter) && !primary_mod(mods) && !mods.alt
                    && !mods.shift {
                    let _ = self.delete_bullet_selection_with(a);
                    self.split_focused_with(b, now)
                } else if !primary_mod(mods) && types_something(&event.text) {
                    let _ = self.delete_bullet_selection_with(a);
                    let _ = self.type_in_focused(event, mods, now);
                    true
                } else {
                    self.bullet_selection = None;
                    assert(self@ =~= old(self)@.selecting(None));
                    true
                }
            },
        }
    }

    fn focused_at_text_start(&self) -> (r: bool)
        ensures
            r == self@.at_text_start(),
    {
        match self.focused_index() {
            Some(i) => {
                assert(self@.bullets[i as int] == self.bullets@[i as int]@);
                match self.bullets[i].textbox.primary_caret() {
                    Some((a, h)) => a == 0 && h == 0,
                    None => false,
                }
            },
            None => false,
        }
    }

    fn focused_at_first_line(&self) -> (r: bool)
        requires
            self@.wf(),
        ensures
            r == self@.at_first_line(),
    {
        match self.focused_index() {
            Some(i) => {
                assert(self@.bullets[i as int] == self.bullets@[i as int]@);
                assert(self@.bullets[i as int].text.wf());
                self.bullets[i].textbox.primary_visual_line() == 0
            },
            None => false,
        }
    }

    fn focused_at_last_line(&self) -> (r: bool)
        requires
            self@.wf(),
        ensures
            r == self@.at_last_line(),
    {
        match self.focused_index() {
            Some(i) => {
                assert(self@.bullets[i as int] == self.bullets@[i as int]@);
                assert(self@.bullets[i as int].text.wf());
                let line: usize = self.bullets[i].textbox.primary_visual_line();
                let count: usize = self.bullets[i].textbox.visual_line_count();
                count - 1 <= line
            },
            None => false,
        }
    }

    /// Handles a key, `a` and `b` being the identities of bullets that it may
    /// add. Returns whether the key was taken.
    pub fn handle_key_with(
        &mut self,
        event: &KeyEvent,
        mods: Modifiers,
        a: Uuid,
        b: Uuid,
        now: u64,
    ) -> (r: bool)
        requires
            old(self)@.wf(),
            old(self)@.after_key(*event, mods, (a, b), now).fits,
        ensures
            final(self)@ == old(self)@.after_key(*event, mods, (a, b), now).m,
            r == old(self)@.after_key(*event, mods, (a, b), now).done,
            final(self).embed() == old(self).embed(),
            final(self)@.wf(),
    {
        if event.pressed && self.bullet_selection.is_some() {
            return self.key_on_selection_with(event, mods, a, b, now);
        }
        if event.pressed {
            if matches!(event.key, Key::Enter) && !primary_mod(mods) && !mods.alt && !mods.shift {
                return self.split_focused_with(a, now);
            }
            if matches!(event.key, Key::Tab) {
                return if mods.shift {
                    self.outdent_focused()
                } else {
                    self.indent_focused()
                };
            }
            if matches!(event.key, Key::Backspace) && !primary_mod(mods) && !word_mod(mods)
                && self.focused_at_text_start() {
                return self.merge_focused_into_prev();
            }
            if matches!(event.key, Key::ArrowUp) && self.focused_at_first_line() {
                let crossed: bool = if mods.shift {
                    self.promote_bullet_sel(false)
                } else {
                    self.spill(false)
                };
                if crossed {
                    return true;
                }
            }
            if matches!(event.key, Key::ArrowDown) && self.focused_at_last_line() {
                let crossed: bool = if mods.shift {
                    self.promote_bullet_sel(true)
                } else {
                    self.spill(true)
                };
                if crossed {
                    return true;
                }
            }
        }
        self.type_in_focused(event, mods, now)
    }

    /// Handles a key; bullets that it adds get fresh identities. Returns whether
    /// the key was taken.
    pub fn handle_key(&mut self, event: &KeyEvent, mods: Modifiers, now: u64) -> (r: bool)
        requires
            old(self)@.wf(),
            forall|ids: (Uuid, Uuid)|
                (#[trigger] old(self)@.after_key(*event, mods, ids, now)).fits,
        ensures
            exists|ids: (Uuid, Uuid)|
                {
                    let step = #[trigger] old(self)@.after_key(*event, mods, ids, now);
                    final(self)@ == step.m && r == step.done
                },
            final(self).embed() == old(self).embed(),
            final(self)@.wf(),
            old(self)@.has_focus() ==> final(self)@.has_focus(),
    {
        let a: Uuid = new_id();
        let b: Uuid = new_id();
        assert(old(self)@.after_key(*event, mods, (a, b), now).fits);
        let r: bool = self.handle_key_with(event, mods, a, b, now);
        assert(old(self)@.after_key(*event, mods, (a, b), now).m == self@);
        proof {
            if old(self)@.has_focus() {
                keys_keep_the_focus_on_a_bullet(old(self)@, *event, mods, (a, b), now);
            }
        }
        r
    }

    // -----------------------------------------------------------------------
    // The mouse
    // -----------------------------------------------------------------------

    /// Collapses the selections in every bullet but the one at `but`.
    fn collapse_texts(&mut self, but: Option<usize>)
        requires
            bullets_wf(old(self)@.bullets),
        ensures
            final(self)@ == old(self)@.listing(
                texts_collapsed(
                    old(self)@.bullets,
                    match but {
                        Some(i) => i as int,
                        None => -1,
                    },
                ),
            ),
            final(self).embed() == old(self).embed(),
            bullets_wf(final(self)@.bullets),
    {
        let ghost k: int = match but {
            Some(i) => i as int,
            None => -1,
        };
        let ghost before = self@;
        let ghost bs = before.bullets;
        let ghost e = self.embed();
        let mut i: usize = 0;
        assert(before.listing(bs) =~= before);
        while i < self.bullets.len()
            invariant
                i <= self.bullets.len(),
                bs == before.bullets,
                bullets_wf(bs),
                k == (match but {
                    Some(i) => i as int,
                    None => -1,
                }),
                self.bullets@.len() == bs.len(),
                forall|j: int|
                    0 <= j < i ==> (#[trigger] self.bullets@[j])@ == texts_collapsed(bs, k)[j],
                forall|j: int| i <= j < bs.len() ==> (#[trigger] self.bullets@[j])@ == bs[j],
                self@ == before.listing(views(self.bullets@)),
                self.embed() == e,
            decreases self.bullets.len() - i,
        {
            let skip: bool = match but {
                Some(j) => i == j,
                None => false,
            };
            assert(self.bullets@[i as int]@ == bs[i as int]);
            assert(bs[i as int].text.wf());
            if !skip {
                self.bullets[i].textbox.clear_selection();
            }
            i += 1;
            assert(self@ =~= before.listing(views(self.bullets@)));
        }
        proof {
            assert(self@.bullets =~= texts_collapsed(bs, k));
            assert forall|j: int| 0 <= j < bs.len() implies (
            #[trigger] self@.bullets[j]).text.wf() by {
                assert(bs[j].text.wf());
                lemma_collapsed_wf(bs[j].text);
            }
        }
    }

    /// Handles a press of the mouse button on the embedded preview, which the
    /// host then hands to the preview.
    pub fn mouse_down_in_header(&mut self) -> (r: bool)
        requires
            old(self)@.wf(),
        ensures
            r,
            final(self)@ == old(self)@.pressed_in_header(),
            final(self).embed() == old(self).embed(),
            final(self)@.wf(),
    {
        self.bullet_selection = None;
        self.collapse_texts(None);
        self.drag = Some(OutlineDrag { origin_id: 0, mode: DragMode::Header });
        assert(self@ =~= old(self)@.pressed_in_header());
        true
    }

    /// Handles a press of the mouse button on bullet `idx`.
    pub fn mouse_down_in_bullet(
        &mut self,
        idx: usize,
        click: Click,
        mods: Modifiers,
        editing: bool,
    ) -> (r: bool)
        requires
            old(self)@.wf(),
            idx < old(self)@.bullets.len(),
            boundary(old(self)@.bullets[idx as int].text.doc.text, click.idx as int),
        ensures
            r,
            final(self)@ == old(self)@.pressed_in_bullet(idx as int, click, mods, editing),
            final(self).embed() == old(self).embed(),
            final(self)@.wf(),
    {
        let ghost before = self@;
        self.bullet_selection = None;
        self.collapse_texts(Some(idx));
        let ghost bs = self@.bullets;
        assert(bs.len() == before.bullets.len());
        assert(self.bullets@.len() == bs.len());
        assert(bs[idx as int] == before.bullets[idx as int]);
        assert(bs[idx as int] == self.bullets@[idx as int]@);
        let id: Uuid = self.bullets[idx].id;
        self.focused_bullet = id;
        self.drag = Some(OutlineDrag { origin_id: id, mode: DragMode::TextBox });
        let r: bool = self.bullets[idx].textbox.mouse_down(click, mods, editing);
        assert(self@ =~= before.pressed_in_bullet(idx as int, click, mods, editing));
        r
    }

    /// Handles a drag to bullet `idx`, at byte `at` of its text. Returns whether
    /// anything changed. A drag that started in the preview changes nothing here;
    /// the host hands it to the preview.
    pub fn mouse_drag_to(&mut self, idx: usize, at: usize, affinity: Affinity) -> (r: bool)
        requires
            old(self)@.wf(),
            idx < old(self)@.bullets.len(),
            old(self)@.drag_fits(idx as int, at),
        ensures
            final(self)@ == old(self)@.dragged(idx as int, at, affinity),
            r == (final(self)@ != old(self)@),
            final(self).embed() == old(self).embed(),
            final(self)@.wf(),
    {
        let ghost before = self@;
        assert(before.bullets[idx as int] == self.bullets@[idx as int]@);
        let d: OutlineDrag = match self.drag {
            Some(d) => d,
            None => {
                return false;
            },
        };
        let current: Uuid = self.bullets[idx].id;
        match d.mode {
            DragMode::Header => false,
            DragMode::BulletRange { head_id } => {
                if head_id == current {
                    assert(before.dragged(idx as int, at, affinity) =~= before);
                    return false;
                }
                self.drag = Some(
                    OutlineDrag {
                        origin_id: d.origin_id,
                        mode: DragMode::BulletRange { head_id: current },
                    },
                );
                assert(self@ =~= before.dragged(idx as int, at, affinity));
                assert(self@.drag != before.drag);
                true
            },
            DragMode::TextBox => {
                let origin = self.bullet_idx(d.origin_id);
                proof {
                    lemma_bullet_pos(before.bullets, d.origin_id, 0);
                }
                if current != d.origin_id {
                    if let Some(o) = origin {
                        assert(before.bullets[o as int] == self.bullets@[o as int]@);
                        assert(before.bullets[o as int].text.wf());
                        let _ = self.bullets[o].textbox.mouse_up();
                        assert(self@ =~= before.saying(
                            o as int,
                            after_mouse_up(before.bullets[o as int].text),
                        ));
                    }
                    self.drag = Some(
                        OutlineDrag {
                            origin_id: d.origin_id,
                            mode: DragMode::BulletRange { head_id: current },
                        },
                    );
                    assert(self@ =~= before.dragged(idx as int, at, affinity));
                    assert(self@.drag != before.drag);
                    return true;
                }
                match origin {
                    Some(o) => {
                        assert(before.bullets[o as int] == self.bullets@[o as int]@);
                        assert(before.bullets[o as int].text.wf());
                        let r: bool = self.bullets[o].textbox.mouse_drag_to(at, affinity);
                        assert(self@ =~= before.dragged(idx as int, at, affinity));
                        assert(self@.bullets[o as int] == self.bullets@[o as int]@);
                        if !r {
                            assert(self@.bullets =~= before.bullets);
                        }
                        r
                    },
                    None => {
                        assert(before.bullets[idx as int].id == d.origin_id);
                        false
                    },
                }
            },
        }
    }

    /// Ends a drag. Returns whether that shows; a drag in the preview is ended
    /// there by the host.
    pub fn mouse_up(&mut self) -> (r: bool)
        requires
            old(self)@.wf(),
        ensures
            final(self)@ == old(self)@.released(),
            r == old(self)@.release_shows(),
            final(self).embed() == old(self).embed(),
            final(self)@.wf(),
    {
        let ghost before = self@;
        let d: OutlineDrag = match self.drag {
            Some(d) => d,
            None => {
                return false;
            },
        };
        self.drag = None;
        match d.mode {
            DragMode::Header => false,
            DragMode::BulletRange { head_id } => {
                self.bullet_selection = Some(BulletSelection { anchor_id: d.origin_id, head_id });
                self.focused_bullet = head_id;
                true
            },
            DragMode::TextBox => {
                match self.bullet_idx(d.origin_id) {
                    Some(o) => {
                        assert(before.bullets[o as int] == self.bullets@[o as int]@);
                        assert(before.bullets[o as int].text.wf());
                        let r: bool = self.bullets[o].textbox.mouse_up();
                        assert(self@ =~= before.released());
                        r
                    },
                    None => false,
                }
            },
        }
    }

    /// Whether a bullet is shown by the current view.
    fn is_shown(&self, i: usize) -> (r: bool)
        requires
            i < self@.bullets.len(),
        ensures
            r == self@.shown(i as int),
    {
        broadcast use vstd::std_specs::hash::group_hash_axioms;

        assert(self@.bullets[i as int] == self.bullets@[i as int]@);
        match &self.bullet_filter {
            Some(set) => set.contains(&self.bullets[i].id),
            None => true,
        }
    }

    /// The bullet that a pointer belongs to: the shown one that it is in, else the
    /// first or last shown. `inside(i, i)` tells whether it is in bullet `i` as
    /// last drawn, `above` whether it is above the outline.
    pub fn bullet_idx_at_y<F: Fn(usize, usize) -> bool>(&self, inside: &F, above: bool) -> (r:
        usize)
        requires
            self@.wf(),
            decided(*inside),
        ensures
            r == bullet_hit(self@, |i: int| measure(*inside)(i, i), above),
            r < self@.bullets.len(),
    {
        let ghost m = self@;
        let ghost f = |i: int| measure(*inside)(i, i);
        let ghost any = |i: int| true;
        let n: usize = self.bullets.len();
        let mut i: usize = 0;
        while i < n
            invariant
                i <= n,
                n == m.bullets.len(),
                m == self@,
                decided(*inside),
                f == (|i: int| measure(*inside)(i, i)),
                shown_from(m, f, 0) == shown_from(m, f, i as int),
            decreases n - i,
        {
            if self.is_shown(i) && inside(i, i) {
                return i;
            }
            i += 1;
        }
        if above {
            let mut j: usize = 0;
            while j < n
                invariant
                    j <= n,
                    n == m.bullets.len(),
                    m == self@,
                    any == (|i: int| true),
                    shown_from(m, f, 0) >= n,
                    above,
                    f == (|i: int| measure(*inside)(i, i)),
                    shown_from(m, any, 0) == shown_from(m, any, j as int),
                decreases n - j,
            {
                if self.is_shown(j) {
                    return j;
                }
                j += 1;
            }
            0
        } else {
            let mut j: usize = n;
            while j > 0
                invariant
                    j <= n,
                    n == m.bullets.len(),
                    m == self@,
                    shown_from(m, f, 0) >= n,
                    !above,
                    f == (|i: int| measure(*inside)(i, i)),
                    shown_before(m, n as int) == shown_before(m, j as int),
                decreases j,
            {
                if self.is_shown(j - 1) {
                    return j - 1;
                }
                j -= 1;
            }
            n - 1
        }
    }

    // -----------------------------------------------------------------------
    // Drawing
    // -----------------------------------------------------------------------

    /// How the bullets are drawn: which are shown, how far each is indented, and
    /// which carry highlight, focus and caret.
    pub fn rows(&self, focused: bool, show_caret: bool) -> (rows: Vec<RowPlan>)
        ensures
            views(rows@) == Seq::new(
                self@.bullets.len(),
                |i: int| self@.row(i, focused, show_caret),
            ),
    {
        let ghost m = self@;
        let n: usize = self.bullets.len();
        let open = self.compute_effective_open();
        let active = self.active_range();
        let least: u32 = self.indent_base();
        let mut rows: Vec<RowPlan> = Vec::new();
        let mut i: usize = 0;
        while i < n
            invariant
                i <= n,
                n == m.bullets.len(),
                m == self@,
                open@ == Seq::new(m.bullets.len(), |i: int| effectively_open(m.bullets, i)),
                match active {
                    Some((lo, hi)) => m.active() == Some((lo as int, hi as int)),
                    None => m.active() is None,
                },
                least == (if m.filter is Some && shown_from(m, |i: int| true, 0)
                    < m.bullets.len() {
                    least_shown_depth(m, 0)
                } else {
                    0
                }),
                views(rows@) == Seq::new(i as nat, |j: int| m.row(j, focused, show_caret)),
            decreases n - i,
        {
            assert(m.bullets[i as int] == self.bullets@[i as int]@);
            let depth: u32 = self.bullets[i].depth;
            let own: bool = self.bullets[i].id == self.focused_bullet && active.is_none();
            let in_active: bool = match active {
                Some((lo, hi)) => lo <= i && i <= hi,
                None => false,
            };
            let ghost held = rows@;
            rows.push(
                RowPlan {
                    visible: self.is_shown(i) && (open[i] || self.show_inactive),
                    indent: if depth > least {
                        depth - least
                    } else {
                        0
                    },
                    dimmed: !open[i],
                    highlighted: focused && in_active,
                    focused: focused && own,
                    caret: show_caret && own,
                },
            );
            proof {
                assert(rows@.last()@ =~= m.row(i as int, focused, show_caret));
                assert(views(rows@) =~= views(held).push(rows@.last()@));
            }
            i += 1;
            assert(views(rows@) =~= Seq::new(i as nat, |j: int| m.row(j, focused, show_caret)));
        }
        rows
    }

    fn active_range(&self) -> (r: Option<(usize, usize)>)
        ensures
            match r {
                Some((lo, hi)) => self@.active() == Some((lo as int, hi as int)),
                None => self@.active() is None,
            },
    {
        let over: Option<BulletSelection> = match self.drag {
            Some(d) => match d.mode {
                DragMode::BulletRange { head_id } => Some(
                    BulletSelection { anchor_id: d.origin_id, head_id },
                ),
                _ => self.bullet_selection,
            },
            None => self.bullet_selection,
        };
        let s: BulletSelection = match over {
            Some(s) => s,
            None => {
                return None;
            },
        };
        let a: usize = match self.bullet_idx(s.anchor_id) {
            Some(a) => a,
            None => {
                return None;
            },
        };
        let h: usize = match self.bullet_idx(s.head_id) {
            Some(h) => h,
            None => {
                return None;
            },
        };
        if a <= h {
            Some((a, h))
        } else {
            Some((h, a))
        }
    }

    /// The depth that is drawn flush left.
    fn indent_base(&self) -> (r: u32)
        ensures
            r == (if self@.filter is Some && shown_from(self@, |i: int| true, 0)
                < self@.bullets.len() {
                least_shown_depth(self@, 0)
            } else {
                0
            }),
    {
        if self.bullet_filter.is_none() {
            return 0;
        }
        let ghost m = self@;
        let ghost any = |i: int| true;
        let mut least: u32 = u32::MAX;
        let mut found: bool = false;
        let mut i: usize = self.bullets.len();
        assert(shown_from(m, any, i as int) == m.bullets.len());
        while i > 0
            invariant
                i <= self.bullets.len(),
                self.bullets.len() == m.bullets.len(),
                m == self@,
                any == (|i: int| true),
                least == least_shown_depth(m, i as int),
                found == (shown_from(m, any, i as int) < m.bullets.len()),
            decreases i,
        {
            i -= 1;
            assert(m.bullets[i as int] == self.bullets@[i as int]@);
            if self.is_shown(i) {
                found = true;
                if self.bullets[i].depth < least {
                    least = self.bullets[i].depth;
                }
            }
        }
        if found {
            least
        } else {
            0
        }
    }

    // -----------------------------------------------------------------------
    // All bullets
    // -----------------------------------------------------------------------

    /// Whether no bullet says anything. An outline around an embed is never
    /// empty.
    pub fn is_empty(&self) -> (r: bool)
        ensures
            r == (self.embed() is None && forall|i: int|
                0 <= i < self@.bullets.len() ==> blank((#[trigger] self@.bullets[i]).text.doc.text)),
    {
        if self.reference_header.is_some() {
            return false;
        }
        let ghost bs = self@.bullets;
        let mut i: usize = 0;
        while i < self.bullets.len()
            invariant
                i <= self.bullets.len(),
                bs == views(self.bullets@),
                bs == self@.bullets,
                forall|j: int| 0 <= j < i ==> blank((#[trigger] bs[j]).text.doc.text),
            decreases self.bullets.len() - i,
        {
            assert(bs[i as int] == self.bullets@[i as int]@);
            if !self.bullets[i].textbox.is_empty() {
                return false;
            }
            i += 1;
        }
        true
    }

    /// Sets the zoom factor of the outline and of every bullet.
    pub fn set_font_scale(&mut self, scale: u32)
        requires
            old(self)@.wf(),
        ensures
            final(self)@ == old(self)@.zoomed(scale),
            final(self).embed() == old(self).embed(),
            final(self)@.wf(),
    {
        let ghost before = self@;
        let ghost bs = before.bullets;
        let ghost e = self.embed();
        let ghost f = |t: TextModel| zoomed(t, scale);
        self.font_scale = scale;
        let mut i: usize = 0;
        assert(self@ =~= OutlineModel { scale, bullets: views(self.bullets@), ..before });
        while i < self.bullets.len()
            invariant
                i <= self.bullets.len(),
                bs == before.bullets,
                before.wf(),
                f == (|t: TextModel| zoomed(t, scale)),
                self.bullets@.len() == bs.len(),
                forall|j: int|
                    0 <= j < i ==> (#[trigger] self.bullets@[j])@ == texts_mapped(bs, f)[j]
                        && self.bullets@[j]@.text.wf(),
                forall|j: int| i <= j < bs.len() ==> (#[trigger] self.bullets@[j])@ == bs[j],
                self@ == (OutlineModel { scale, bullets: views(self.bullets@), ..before }),
                self.embed() == e,
            decreases self.bullets.len() - i,
        {
            assert(self.bullets@[i as int]@ == bs[i as int]);
            assert(bs[i as int].text.wf());
            self.bullets[i].textbox.set_font_scale(scale);
            i += 1;
            assert(self@ =~= OutlineModel { scale, bullets: views(self.bullets@), ..before });
        }
        proof {
            assert(self@.bullets =~= texts_mapped(bs, f));
            assert forall|j: int| 0 <= j < bs.len() implies (
            #[trigger] self@.bullets[j]).text.wf() by {
                assert(self@.bullets[j] == self.bullets@[j]@);
            }
        }
    }

    /// Whether the caret is on the first visual line of the first bullet.
    pub fn at_top_edge(&self) -> (r: bool)
        requires
            self@.wf(),
        ensures
            r == (self@.focused == self@.bullets[0].id && primary_line(self@.bullets[0].text)
                == 0),
    {
        assert(self@.bullets[0] == self.bullets@[0]@);
        assert(self@.bullets[0].text.wf());
        self.focused_bullet == self.bullets[0].id && self.bullets[0].textbox.at_top_visual_line()
    }

    /// Whether the caret is on the last visual line of the last bullet.
    pub fn at_bottom_edge(&self) -> (r: bool)
        requires
            self@.wf(),
        ensures
            r == (self@.focused == self@.bullets.last().id && primary_line(
                self@.bullets.last().text,
            ) + 1 >= line_count(self@.bullets.last().text)),
    {
        let i: usize = self.bullets.len() - 1;
        assert(self@.bullets[i as int] == self.bullets@[i as int]@);
        assert(self@.bullets[i as int].text.wf());
        self.focused_bullet == self.bullets[i].id
            && self.bullets[i].textbox.at_bottom_visual_line()
    }

    /// Puts a link onto the first bullet.
    pub fn add_link_to_first(&mut self, range: Range<usize>, url: String)
        requires
            old(self)@.wf(),
        ensures
            ({
                let t = old(self)@.bullets[0].text;
                final(self)@ == old(self)@.saying(
                    0,
                    t.linking(
                        with_link(
                            t.doc.text,
                            t.doc.links,
                            range.start as int,
                            range.end as int,
                            utf8(url@),
                        ),
                    ),
                )
            }),
            final(self).embed() == old(self).embed(),
            final(self)@.wf(),
    {
        let ghost before = self@;
        let ghost t = before.bullets[0].text;
        let ghost address = utf8(url@);
        assert(before.bullets[0] == self.bullets@[0]@);
        self.bullets[0].textbox.add_link(range, url);
        assert(self@ =~= before.saying(
            0,
            t.linking(
                with_link(t.doc.text, t.doc.links, range.start as int, range.end as int, address),
            ),
        ));
    }

    /// Replaces a part of a bullet's text by `text`, which links to `url`.
    pub fn replace_in_bullet_with_link(
        &mut self,
        bullet_id: Uuid,
        range: Range<usize>,
        text: String,
        url: String,
        now: u64,
    )
        requires
            old(self)@.wf(),
            old(self)@.edit_fits_in(
                bullet_id,
                EditModel {
                    start: range.start as int,
                    end: range.end as int,
                    with: utf8(text@),
                },
            ),
        ensures
            ({
                let e = EditModel {
                    start: range.start as int,
                    end: range.end as int,
                    with: utf8(text@),
                };
                final(self)@ == old(self)@.saying_in(
                    bullet_id,
                    |t: TextModel| t.replaced_by_link(e, utf8(url@), now),
                )
            }),
            final(self).embed() == old(self).embed(),
            final(self)@.wf(),
    {
        let ghost before = self@;
        let ghost e = EditModel {
            start: range.start as int,
            end: range.end as int,
            with: utf8(text@),
        };
        let ghost f = |t: TextModel| t.replaced_by_link(e, utf8(url@), now);
        if let Some(i) = self.bullet_idx(bullet_id) {
            assert(before.bullets[i as int] == self.bullets@[i as int]@);
            assert(before.bullets[i as int].text.wf());
            self.bullets[i].textbox.replace_with_link(range, text, url, now);
            assert(self@ =~= before.saying(i as int, f(before.bullets[i as int].text)));
        }
    }

    /// Lays out a bullet's text on lines, by what is too wide for one.
    pub fn rewrap_bullet<F: Fn(usize, usize) -> bool>(&mut self, bullet_id: Uuid, too_wide: &F)
        requires
            old(self)@.wf(),
            decided(*too_wide),
        ensures
            final(self)@ == old(self)@.saying_in(
                bullet_id,
                |t: TextModel| after_wrap(t, measure(*too_wide)),
            ),
            final(self).embed() == old(self).embed(),
            final(self)@.wf(),
    {
        let ghost before = self@;
        let ghost f = |t: TextModel| after_wrap(t, measure(*too_wide));
        if let Some(i) = self.bullet_idx(bullet_id) {
            assert(before.bullets[i as int] == self.bullets@[i as int]@);
            self.bullets[i].textbox.rewrap(too_wide);
            assert(self@ =~= before.saying_in(bullet_id, f));
            assert forall|j: int| 0 <= j < self@.bullets.len() implies (
            #[trigger] self@.bullets[j]).text.wf() by {
                if j != i {
                    assert(self@.bullets[j] == before.bullets[j]);
                }
            }
        }
    }

    /// Replaces a part of a bullet's text by `text`.
    pub fn replace_in_bullet_with_text(
        &mut self,
        bullet_id: Uuid,
        range: Range<usize>,
        text: String,
        now: u64,
    )
        requires
            old(self)@.wf(),
            old(self)@.edit_fits_in(
                bullet_id,
                EditModel {
                    start: range.start as int,
                    end: range.end as int,
                    with: utf8(text@),
                },
            ),
        ensures
            ({
                let e = EditModel {
                    start: range.start as int,
                    end: range.end as int,
                    with: utf8(text@),
                };
                final(self)@ == old(self)@.saying_in(
                    bullet_id,
                    |t: TextModel| t.replaced_range(e, now),
                )
            }),
            final(self).embed() == old(self).embed(),
            final(self)@.wf(),
    {
        let ghost before = self@;
        let ghost e = EditModel {
            start: range.start as int,
            end: range.end as int,
            with: utf8(text@),
        };
        let ghost f = |t: TextModel| t.replaced_range(e, now);
        if let Some(i) = self.bullet_idx(bullet_id) {
            assert(before.bullets[i as int] == self.bullets@[i as int]@);
            assert(before.bullets[i as int].text.wf());
            self.bullets[i].textbox.replace_with_text(range, text, now);
            assert(self@ =~= before.saying(i as int, f(before.bullets[i as int].text)));
        }
    }

    /// Replaces a part of a bullet's text by a tag.
    pub fn replace_in_bullet_with_tag(
        &mut self,
        bullet_id: Uuid,
        range: Range<usize>,
        text: String,
        now: u64,
    )
        requires
            old(self)@.wf(),
            old(self)@.edit_fits_in(
                bullet_id,
                EditModel {
                    start: range.start as int,
                    end: range.end as int,
                    with: utf8(text@),
                },
            ),
        ensures
            ({
                let e = EditModel {
                    start: range.start as int,
                    end: range.end as int,
                    with: utf8(text@),
                };
                final(self)@ == old(self)@.saying_in(
                    bullet_id,
                    |t: TextModel| t.replaced_by_tag(e, now),
                )
            }),
            final(self).embed() == old(self).embed(),
            final(self)@.wf(),
    {
        let ghost before = self@;
        let ghost e = EditModel {
            start: range.start as int,
            end: range.end as int,
            with: utf8(text@),
        };
        let ghost f = |t: TextModel| t.replaced_by_tag(e, now);
        if let Some(i) = self.bullet_idx(bullet_id) {
            assert(before.bullets[i as int] == self.bullets@[i as int]@);
            assert(before.bullets[i as int].text.wf());
            self.bullets[i].textbox.replace_with_tag(range, text, now);
            assert(self@ =~= before.saying(i as int, f(before.bullets[i as int].text)));
        }
    }

    // -----------------------------------------------------------------------
    // Copying and pasting
    // -----------------------------------------------------------------------

    /// Bullets `lo` to `hi`, one to a line, each indented by its depth.
    fn join_lines(&self, unit: &str, lo: usize, hi: usize) -> (s: String)
        requires
            lo <= hi <= self@.bullets.len(),
        ensures
            utf8(s@) == lines_joined(self@.bullets, utf8(unit@), lo as int, hi as int),
    {
        let ghost bs = self@.bullets;
        let ghost u = utf8(unit@);
        let mut s = String::new();
        assert(utf8(s@) =~= Seq::<u8>::empty());
        let mut i: usize = lo;
        while i < hi
            invariant
                lo <= i <= hi,
                hi <= bs.len(),
                bs == views(self.bullets@),
                u == utf8(unit@),
                utf8(s@) == lines_joined(bs, u, lo as int, i as int),
            decreases hi - i,
        {
            assert(bs[i as int] == self.bullets@[i as int]@);
            let ghost start = utf8(s@);
            if i > lo {
                proof {
                    reveal_strlit("\n");
                    is_ascii_chars_encode_utf8("\n"@);
                    assert(utf8("\n"@) =~= seq![10u8]);
                }
                text::push_str(&mut s, "\n");
            }
            let ghost led = utf8(s@);
            let depth: u32 = self.bullets[i].depth;
            let mut k: u32 = 0;
            assert(led + repeated(u, 0) =~= led);
            while k < depth
                invariant
                    k <= depth,
                    u == utf8(unit@),
                    utf8(s@) == led + repeated(u, k as int),
                decreases depth - k,
            {
                text::push_str(&mut s, unit);
                k += 1;
                assert(utf8(s@) =~= led + repeated(u, k as int));
            }
            text::push_str(&mut s, self.bullets[i].textbox.text());
            proof {
                let own = repeated(u, depth as int) + bs[i as int].text.doc.text;
                assert(utf8(s@) =~= led + own);
                if i > lo {
                    assert(utf8(s@) =~= start + seq![10u8] + own);
                } else {
                    assert(utf8(s@) =~= own);
                }
            }
            i += 1;
        }
        s
    }

    /// The whole outline as text: one line to a bullet, two spaces to a level.
    pub fn full_text(&self) -> (s: String)
        ensures
            utf8(s@) == lines_joined(
                self@.bullets,
                two_spaces(),
                0,
                self@.bullets.len() as int,
            ),
    {
        proof {
            reveal_strlit("  ");
            is_ascii_chars_encode_utf8("  "@);
            assert(utf8("  "@) =~= two_spaces());
        }
        self.join_lines("  ", 0, self.bullets.len())
    }

    /// The selected bullets as text, four spaces to a level; else what is selected
    /// in the focused bullet.
    pub fn copy_text(&self) -> (s: String)
        requires
            self@.wf(),
        ensures
            utf8(s@) == self@.copied(),
    {
        let n: usize = self.bullets.len();
        if self.bullet_selection.is_some() {
            match self.selected_range() {
                Some((lo, hi)) => {
                    proof {
                        reveal_strlit("    ");
                        is_ascii_chars_encode_utf8("    "@);
                        assert(utf8("    "@) =~= four_spaces());
                    }
                    self.join_lines("    ", lo, hi + 1)
                },
                None => {
                    let none = String::new();
                    assert(utf8(none@) =~= Seq::<u8>::empty());
                    none
                },
            }
        } else {
            match self.focused_index() {
                Some(i) => {
                    assert(self@.bullets[i as int] == self.bullets@[i as int]@);
                    assert(self@.bullets[i as int].text.wf());
                    self.bullets[i].textbox.copy_primary_selection()
                },
                None => {
                    let none = String::new();
                    assert(utf8(none@) =~= Seq::<u8>::empty());
                    none
                },
            }
        }
    }

    /// Copies, then takes out what was copied; `id` is the identity of the bullet
    /// that is put in where none is left.
    pub fn cut_text_with(&mut self, id: Uuid, now: u64) -> (s: String)
        requires
            old(self)@.wf(),
            old(self)@.cut(id, now).fits,
        ensures
            utf8(s@) == old(self)@.copied(),
            final(self)@ == old(self)@.cut(id, now).m,
            final(self).embed() == old(self).embed(),
            final(self)@.wf(),
    {
        let ghost before = self@;
        let s = self.copy_text();
        if self.bullet_selection.is_some() {
            let _ = self.delete_bullet_selection_with(id);
        } else if let Some(i) = self.focused_index() {
            assert(before.bullets[i as int] == self.bullets@[i as int]@);
            assert(before.bullets[i as int].text.wf());
            let _ = self.bullets[i].textbox.cut_primary_selection(now);
            assert(self@ =~= before.cut(id, now).m);
        }
        s
    }

    /// Copies, then takes out what was copied.
    pub fn cut_text(&mut self, now: u64) -> (s: String)
        requires
            old(self)@.wf(),
            forall|id: Uuid| (#[trigger] old(self)@.cut(id, now)).fits,
        ensures
            utf8(s@) == old(self)@.copied(),
            exists|id: Uuid| final(self)@ == (#[trigger] old(self)@.cut(id, now)).m,
            final(self).embed() == old(self).embed(),
            final(self)@.wf(),
    {
        let id: Uuid = new_id();
        assert(old(self)@.cut(id, now).fits);
        let s = self.cut_text_with(id, now);
        assert(self@ == old(self)@.cut(id, now).m);
        s
    }

    /// Pastes `s` into the focused bullet, with `links` onto it, in place of
    /// selected bullets; where `links` is empty the addresses in `s` become links.
    pub fn paste_with_links_and_id(&mut self, s: &str, links: &Vec<LinkSpan>, id: Uuid, now: u64)
        requires
            old(self)@.wf(),
            old(self)@.pasted(utf8(s@), pasted_links(s@, links@), id, now).fits,
        ensures
            final(self)@ == old(self)@.pasted(utf8(s@), pasted_links(s@, links@), id, now).m,
            final(self).embed() == old(self).embed(),
            final(self)@.wf(),
    {
        if self.bullet_selection.is_some() {
            let _ = self.delete_bullet_selection_with(id);
        }
        let ghost m = self@;
        if let Some(i) = self.focused_index() {
            assert(m.bullets[i as int] == self.bullets@[i as int]@);
            assert(m.bullets[i as int].text.wf());
            self.bullets[i].textbox.paste_with_links(s, links, now);
            assert(self@ =~= old(self)@.pasted(utf8(s@), pasted_links(s@, links@), id, now).m);
        }
    }

    /// Pastes `s` into the focused bullet, with `links` onto it.
    pub fn paste_with_links(&mut self, s: &str, links: &Vec<LinkSpan>, now: u64)
        requires
            old(self)@.wf(),
            forall|id: Uuid|
                (#[trigger] old(self)@.pasted(
                    utf8(s@),
                    pasted_links(s@, links@),
                    id,
                    now,
                )).fits,
        ensures
            exists|id: Uuid|
                final(self)@ == (#[trigger] old(self)@.pasted(
                    utf8(s@),
                    pasted_links(s@, links@),
                    id,
                    now,
                )).m,
            final(self).embed() == old(self).embed(),
            final(self)@.wf(),
    {
        let id: Uuid = new_id();
        assert(old(self)@.pasted(utf8(s@), pasted_links(s@, links@), id, now).fits);
        self.paste_with_links_and_id(s, links, id, now);
        assert(self@ == old(self)@.pasted(utf8(s@), pasted_links(s@, links@), id, now).m);
    }

    /// Pastes `s` into the focused bullet; the addresses in it become links.
    pub fn paste_text(&mut self, s: &str, now: u64)
        requires
            old(self)@.wf(),
            forall|id: Uuid|
                (#[trigger] old(self)@.pasted(utf8(s@), url_links(utf8(s@)), id, now)).fits,
        ensures
            exists|id: Uuid|
                final(self)@ == (#[trigger] old(self)@.pasted(
                    utf8(s@),
                    url_links(utf8(s@)),
                    id,
                    now,
                )).m,
            final(self).embed() == old(self).embed(),
            final(self)@.wf(),
    {
        let none: Vec<LinkSpan> = Vec::new();
        let id: Uuid = new_id();
        assert(old(self)@.pasted(utf8(s@), url_links(utf8(s@)), id, now).fits);
        self.paste_with_links_and_id(s, &none, id, now);
        assert(self@ == old(self)@.pasted(utf8(s@), url_links(utf8(s@)), id, now).m);
    }

    /// The selected bullets with depth, text and links, the shallowest at depth 0;
    /// nothing where none are selected.
    pub fn copy_bullet_selection_with_links(&self) -> (r: Option<
        Vec<(u32, String, Vec<LinkSpan>)>,
    >)
        ensures
            (match r {
                Some(items) => Some(item_views(items@)),
                None => None,
            }) == self@.copied_items(),
    {
        let (lo, hi) = match self.selected_range() {
            Some(r) => r,
            None => {
                return None;
            },
        };
        let ghost m = self@;
        let ghost raw = Seq::new(
            (hi + 1 - lo) as nat,
            |k: int|
                ItemModel {
                    depth: m.bullets[lo + k].depth,
                    text: m.bullets[lo + k].text.doc.text,
                    links: m.bullets[lo + k].text.doc.links,
                },
        );
        let n: usize = self.bullets.len();
        let mut least: u32 = u32::MAX;
        let mut i: usize = lo;
        while i <= hi
            invariant
                lo <= i <= hi + 1,
                hi < n,
                n == self.bullets.len(),
                m == self@,
                raw == Seq::new(
                    (hi + 1 - lo) as nat,
                    |k: int|
                        ItemModel {
                            depth: m.bullets[lo + k].depth,
                            text: m.bullets[lo + k].text.doc.text,
                            links: m.bullets[lo + k].text.doc.links,
                        },
                ),
                least == least_depth(raw, i - lo),
            decreases hi + 1 - i,
        {
            assert(m.bullets[i as int] == self.bullets@[i as int]@);
            if self.bullets[i].depth < least {
                least = self.bullets[i].depth;
            }
            i += 1;
        }
        proof {
            lemma_least_depth(raw, raw.len() as int);
        }
        let mut out: Vec<(u32, String, Vec<LinkSpan>)> = Vec::new();
        i = lo;
        while i <= hi
            invariant
                lo <= i <= hi + 1,
                hi < n,
                n == self.bullets.len(),
                m == self@,
                raw == Seq::new(
                    (hi + 1 - lo) as nat,
                    |k: int|
                        ItemModel {
                            depth: m.bullets[lo + k].depth,
                            text: m.bullets[lo + k].text.doc.text,
                            links: m.bullets[lo + k].text.doc.links,
                        },
                ),
                least == least_depth(raw, raw.len() as int),
                forall|k: int| 0 <= k < raw.len() ==> (#[trigger] raw[k]).depth >= least,
                out@.len() == i - lo,
                item_views(out@) == rebased(raw).subrange(0, i - lo),
            decreases hi + 1 - i,
        {
            assert(m.bullets[i as int] == self.bullets@[i as int]@);
            assert(raw[i - lo].depth >= least);
            let b = &self.bullets[i];
            let ghost held = out@;
            out.push(
                (b.depth - least, text::copy(b.textbox.text()), copy_links(b.textbox.links())),
            );
            proof {
                assert(item_view(out@.last()) =~= rebased(raw)[i - lo]);
                assert(item_views(out@) =~= item_views(held).push(item_view(out@.last())));
                assert(rebased(raw).subrange(0, i + 1 - lo) =~= rebased(raw).subrange(
                    0,
                    i - lo,
                ).push(rebased(raw)[i - lo]));
            }
            i += 1;
        }
        assert(rebased(raw).subrange(0, i - lo) =~= rebased(raw));
        Some(out)
    }

    /// Puts `items`, each with depth, text and links, behind the focused bullet,
    /// the shallowest at its depth, in place of selected bullets. `ids` are the
    /// identities of the new bullets.
    pub fn insert_bullets_with_ids(
        &mut self,
        items: Vec<(u32, String, Vec<LinkSpan>)>,
        id: Uuid,
        ids: &Vec<Uuid>,
    )
        requires
            old(self)@.wf(),
            ids@.len() == items@.len(),
            old(self)@.with_items(item_views(items@), id, ids@).fits,
        ensures
            final(self)@ == old(self)@.with_items(item_views(items@), id, ids@).m,
            final(self).embed() == old(self).embed(),
            final(self)@.wf(),
    {
        if items.len() == 0 {
            return ;
        }
        let ghost all = item_views(items@);
        let scale: u32 = self.font_scale;
        if self.bullet_selection.is_some() {
            let _ = self.delete_bullet_selection_with(id);
        }
        let ghost m = self@;
        let at: usize = match self.focused_index() {
            Some(i) => i,
            None => {
                return ;
            },
        };
        assert(m.bullets[at as int] == self.bullets@[at as int]@);
        let base: u32 = self.bullets[at].depth;
        let mut least: u32 = u32::MAX;
        let mut i: usize = 0;
        while i < items.len()
            invariant
                i <= items.len(),
                all == item_views(items@),
                least == least_depth(all, i as int),
            decreases items.len() - i,
        {
            assert(all[i as int] == item_view(items@[i as int]));
            if items[i].0 < least {
                least = items[i].0;
            }
            i += 1;
        }
        proof {
            lemma_least_depth(all, all.len() as int);
        }
        let n: usize = self.bullets.len();
        let mut tail = self.bullets.split_off(at + 1);
        let ghost front = m.bullets.subrange(0, at + 1);
        let ghost back = m.bullets.subrange(at + 1, m.bullets.len() as int);
        assert(views(self.bullets@) =~= front);
        assert(views(tail@) =~= back);
        let ghost added = old(self)@.with_items(all, id, ids@).m.bullets.subrange(
            at + 1,
            at + 1 + all.len(),
        );
        let ghost e = self.embed();
        assert(self@ =~= m.listing(views(self.bullets@)));
        proof {
            assert forall|k: int| 0 <= k < all.len() implies added[k] == BulletModel::fresh(
                ids@[k],
                caret_put(
                    text_of(all[k].text, all[k].links, scale),
                    all[k].text.len() as int,
                ),
                (base + all[k].depth - least) as u32,
            ) by {}
        }
        i = 0;
        assert(front + added.subrange(0, 0) =~= front);
        while i < items.len()
            invariant
                i <= items.len(),
                all == item_views(items@),
                ids@.len() == items@.len(),
                added.len() == all.len(),
                forall|k: int| 0 <= k < all.len() ==> (#[trigger] all[k]).depth >= least,
                forall|k: int|
                    0 <= k < all.len() ==> base + (#[trigger] all[k]).depth - least <= u32::MAX,
                forall|k: int|
                    0 <= k < all.len() ==> #[trigger] added[k] == BulletModel::fresh(
                        ids@[k],
                        caret_put(
                            text_of(all[k].text, all[k].links, scale),
                            all[k].text.len() as int,
                        ),
                        (base + all[k].depth - least) as u32,
                    ),
                forall|k: int| 0 <= k < i ==> (#[trigger] added[k]).text.wf(),
                views(self.bullets@) == front + added.subrange(0, i as int),
                self@ == m.listing(views(self.bullets@)),
                self.embed() == e,
            decreases items.len() - i,
        {
            assert(all[i as int] == item_view(items@[i as int]));
            let it = &items[i];
            let mut tb = text_box_of(it.1.as_str(), copy_links(it.2.as_slice()), scale);
            tb.set_caret_at(text::len(it.1.as_str()));
            let ghost held = self.bullets@;
            let depth: u32 = base + (it.0 - least);
            self.bullets.push(Bullet::new(ids[i], tb, depth));
            proof {
                let b = self.bullets@.last()@;
                assert(b == added[i as int]);
                assert(views(self.bullets@) =~= views(held).push(b));
                assert(added.subrange(0, i + 1) =~= added.subrange(0, i as int).push(b));
                assert(views(self.bullets@) =~= front + added.subrange(0, i + 1));
            }
            i += 1;
            assert(self@ =~= m.listing(views(self.bullets@)));
        }
        assert(added.subrange(0, i as int) =~= added);
        let ghost held = self.bullets@;
        let ghost rest = tail@;
        self.bullets.append(&mut tail);
        assert(views(self.bullets@) =~= views(held) + views(rest));
        self.focused_bullet = ids[0];
        proof {
            let step = old(self)@.with_items(all, id, ids@);
            assert(self@.bullets =~= front + added + back);
            assert(self@.bullets =~= step.m.bullets);
            assert(self@ =~= step.m);
            assert forall|k: int| 0 <= k < self@.bullets.len() implies (
            #[trigger] self@.bullets[k]).text.wf() by {
                if k <= at {
                    assert(m.bullets[k].text.wf());
                } else if k < at + 1 + added.len() {
                    assert(added[k - at - 1].text.wf());
                } else {
                    assert(m.bullets[k - added.len()].text.wf());
                }
            }
        }
    }

    /// Puts `items`, each with depth, text and links, behind the focused bullet;
    /// the new bullets get fresh identities.
    pub fn insert_bullets_after_focused(&mut self, items: Vec<(u32, String, Vec<LinkSpan>)>)
        requires
            old(self)@.wf(),
            forall|id: Uuid, ids: Seq<Uuid>|
                (#[trigger] old(self)@.with_items(item_views(items@), id, ids)).fits,
        ensures
            exists|id: Uuid, ids: Seq<Uuid>|
                final(self)@ == (#[trigger] old(self)@.with_items(
                    item_views(items@),
                    id,
                    ids,
                )).m && ids.len() == items@.len(),
            final(self).embed() == old(self).embed(),
            final(self)@.wf(),
    {
        let ghost all = item_views(items@);
        let id: Uuid = new_id();
        let mut ids: Vec<Uuid> = Vec::new();
        let n: usize = items.len();
        while ids.len() < n
            invariant
                ids.len() <= n,
            decreases n - ids.len(),
        {
            ids.push(new_id());
        }
        assert(old(self)@.with_items(all, id, ids@).fits);
        self.insert_bullets_with_ids(items, id, &ids);
        assert(self@ == old(self)@.with_items(all, id, ids@).m);
    }

    // -----------------------------------------------------------------------
    // Focus and selection
    // -----------------------------------------------------------------------

    /// Puts the caret at the start of the first bullet.
    pub fn place_caret_at_start(&mut self)
        requires
            old(self)@.wf(),
        ensures
            final(self)@ == old(self)@.selecting(None).caret_in(0, 0),
            final(self).embed() == old(self).embed(),
            final(self)@.wf(),
    {
        let ghost before = self@;
        self.bullet_selection = None;
        self.put_caret(0, 0);
        assert(self@.bullets.len() == before.bullets.len());
        assert(self.bullets@.len() == self@.bullets.len());
        assert(self@.bullets[0] == self.bullets@[0]@);
        self.focused_bullet = self.bullets[0].id;
        assert(self@ =~= before.selecting(None).caret_in(0, 0));
    }

    /// Puts the caret at the end of the last bullet.
    pub fn place_caret_at_end(&mut self)
        requires
            old(self)@.wf(),
        ensures
            ({
                let i = old(self)@.bullets.len() - 1;
                final(self)@ == old(self)@.selecting(None).caret_in(
                    i,
                    old(self)@.bullets[i].text.doc.text.len() as int,
                )
            }),
            final(self).embed() == old(self).embed(),
            final(self)@.wf(),
    {
        let ghost before = self@;
        self.bullet_selection = None;
        let i: usize = self.bullets.len() - 1;
        assert(before.bullets[i as int] == self.bullets@[i as int]@);
        let end: usize = text::len(self.bullets[i].textbox.text());
        self.put_caret(i, end);
        assert(self@.bullets.len() == before.bullets.len());
        assert(self.bullets@.len() == self@.bullets.len());
        assert(self@.bullets[i as int] == self.bullets@[i as int]@);
        self.focused_bullet = self.bullets[i].id;
        assert(self@ =~= before.selecting(None).caret_in(i as int, end as int));
    }

    /// Moves the focus to a bullet. Returns whether it is there.
    pub fn set_focused_bullet(&mut self, id: Uuid) -> (r: bool)
        ensures
            r == (bullet_pos(old(self)@.bullets, id, 0) < old(self)@.bullets.len()),
            final(self)@ == (if r && old(self)@.focused != id {
                old(self)@.focusing(id).selecting(None)
            } else {
                old(self)@
            }),
            final(self).embed() == old(self).embed(),
    {
        if self.bullet_idx(id).is_none() {
            return false;
        }
        if self.focused_bullet == id {
            return true;
        }
        self.focused_bullet = id;
        self.bullet_selection = None;
        true
    }

    /// Closes or opens a bullet. Returns whether that changed anything.
    pub fn set_bullet_closed_at(&mut self, bullet_id: Uuid, closed_at: Option<i64>) -> (r: bool)
        requires
            old(self)@.wf(),
        ensures
            final(self)@ == old(self)@.closing(bullet_id, closed_at),
            r == ({
                let i = bullet_pos(old(self)@.bullets, bullet_id, 0);
                i < old(self)@.bullets.len() && old(self)@.bullets[i].closed_at != closed_at
            }),
            final(self).embed() == old(self).embed(),
            final(self)@.wf(),
    {
        let ghost before = self@;
        let i: usize = match self.bullet_idx(bullet_id) {
            Some(i) => i,
            None => {
                return false;
            },
        };
        assert(before.bullets[i as int] == self.bullets@[i as int]@);
        assert(before.bullets[i as int].text.wf());
        if same_moment(self.bullets[i].closed_at, closed_at) {
            assert(before.closing(bullet_id, closed_at).bullets =~= before.bullets);
            return false;
        }
        self.bullets[i].closed_at = closed_at;
        assert(self@ =~= before.closing(bullet_id, closed_at));
        true
    }

    /// Schedules a bullet. Returns whether that changed anything.
    pub fn set_bullet_resurface_after(&mut self, bullet_id: Uuid, when: Option<i64>) -> (r: bool)
        requires
            old(self)@.wf(),
        ensures
            final(self)@ == old(self)@.scheduling(bullet_id, when),
            r == ({
                let i = bullet_pos(old(self)@.bullets, bullet_id, 0);
                i < old(self)@.bullets.len() && old(self)@.bullets[i].resurface_after != when
            }),
            final(self).embed() == old(self).embed(),
            final(self)@.wf(),
    {
        let ghost before = self@;
        let i: usize = match self.bullet_idx(bullet_id) {
            Some(i) => i,
            None => {
                return false;
            },
        };
        assert(before.bullets[i as int] == self.bullets@[i as int]@);
        assert(before.bullets[i as int].text.wf());
        if same_moment(self.bullets[i].resurface_after, when) {
            assert(before.scheduling(bullet_id, when).bullets =~= before.bullets);
            return false;
        }
        self.bullets[i].resurface_after = when;
        assert(self@ =~= before.scheduling(bullet_id, when));
        true
    }

    /// Selects a bullet and its subtree, and moves the focus to the bullet.
    /// Returns whether it is there.
    pub fn select_subtree(&mut self, bullet_id: Uuid) -> (r: bool)
        ensures
            final(self)@ == old(self)@.subtree_selected(bullet_id),
            r == (bullet_pos(old(self)@.bullets, bullet_id, 0) < old(self)@.bullets.len()),
            final(self).embed() == old(self).embed(),
    {
        match self.subtree_range(bullet_id) {
            Some(range) => {
                assert(self@.bullets[range.end - 1] == self.bullets@[range.end - 1]@);
                let head_id: Uuid = self.bullets[range.end - 1].id;
                self.bullet_selection = Some(BulletSelection { anchor_id: bullet_id, head_id });
                self.focused_bullet = bullet_id;
                true
            },
            None => false,
        }
    }

    /// Collapses every selection in the bullets and drops the one of bullets.
    pub fn clear_own_selections(&mut self)
        requires
            old(self)@.wf(),
        ensures
            final(self)@ == old(self)@.all_collapsed(),
            final(self).embed() == old(self).embed(),
            final(self)@.wf(),
    {
        self.bullet_selection = None;
        self.collapse_texts(None);
        assert(self@ =~= old(self)@.all_collapsed());
    }

    /// The address that the last press of the mouse button marked, handed out
    /// once: in the embedded preview, else in the first bullet that has one.
    pub fn take_pending_link_url(&mut self) -> (url: Option<String>)
        requires
            old(self)@.wf(),
            old(self).embed() matches Some(h) ==> h.wf(),
        ensures
            ({
                let m = KindModel::Outline(old(self)@, old(self).embed());
                &&& optional_bytes(url) == m.pending()
                &&& KindModel::Outline(final(self)@, final(self).embed()) == m.followed()
            }),
            final(self)@.wf(),
            final(self).embed() matches Some(h) ==> h.wf(),
        decreases *old(self),
    {
        let ghost was = *self;
        if let Some(h) = self.reference_header.as_mut() {
            let url = h.take_pending_link_url();
            if url.is_some() {
                return url;
            }
        }
        assert(self@ == was@);
        self.take_own_pending_link_url()
    }

    /// Ends a drag, in the embedded preview too where it started there. Returns
    /// whether that shows.
    pub fn release(&mut self) -> (r: bool)
        requires
            old(self)@.wf(),
            old(self).embed() matches Some(h) ==> h.wf(),
        ensures
            ({
                let m = KindModel::Outline(old(self)@, old(self).embed());
                &&& r == m.release_shows()
                &&& KindModel::Outline(final(self)@, final(self).embed()) == m.released()
            }),
            final(self)@.wf(),
            final(self).embed() matches Some(h) ==> h.wf(),
        decreases *old(self),
    {
        let in_header: bool = match &self.drag {
            Some(d) => matches!(d.mode, DragMode::Header),
            None => false,
        };
        let mut shows: bool = false;
        if in_header {
            if let Some(h) = self.reference_header.as_mut() {
                shows = h.mouse_up();
            }
        }
        let own: bool = self.mouse_up();
        own || shows
    }

    /// Drops every selection in the outline and in the embedded preview.
    pub fn clear_all_selections(&mut self)
        requires
            old(self)@.wf(),
            old(self).embed() matches Some(h) ==> h.wf(),
        ensures
            final(self)@ == old(self)@.all_collapsed(),
            final(self).embed() == (match old(self).embed() {
                Some(h) => Some(h.all_collapsed()),
                None => None,
            }),
            final(self)@.wf(),
            final(self).embed() matches Some(h) ==> h.wf(),
        decreases *old(self),
    {
        if let Some(h) = self.reference_header.as_mut() {
            h.clear_all_selections();
        }
        self.clear_own_selections();
    }

    /// Selects the text of the focused bullet, or where that is selected already
    /// or empty, or bullets are selected, every bullet.
    pub fn select_all_in_focused(&mut self)
        requires
            old(self)@.wf(),
        ensures
            final(self)@ == old(self)@.everything_selected(),
            final(self).embed() == old(self).embed(),
            final(self)@.wf(),
    {
        let ghost before = self@;
        let n: usize = self.bullets.len();
        match self.selected_range() {
            Some((lo, hi)) => {
                if lo == 0 && hi + 1 == n {
                    return ;
                }
            },
            None => {},
        }
        let mut escalate: bool = self.bullet_selection.is_some();
        let mut at: usize = 0;
        if !escalate {
            match self.focused_index() {
                Some(i) => {
                    at = i;
                    assert(before.bullets[i as int] == self.bullets@[i as int]@);
                    let tb = &self.bullets[i].textbox;
                    let len: usize = text::len(tb.text());
                    let full: bool = match tb.primary_caret() {
                        Some((a, h)) => len > 0 && ((a < h && a == 0 && h == len) || (a >= h && h
                            == 0 && a == len)),
                        None => false,
                    };
                    escalate = full || len == 0;
                },
                None => {
                    return ;
                },
            }
        }
        if escalate {
            self.collapse_texts(None);
            assert(self@.bullets.len() == before.bullets.len());
            assert(self.bullets@.len() == self@.bullets.len());
            assert(self@.bullets[0] == self.bullets@[0]@);
            assert(self@.bullets[n - 1] == self.bullets@[n - 1]@);
            let anchor_id: Uuid = self.bullets[0].id;
            let head_id: Uuid = self.bullets[n - 1].id;
            self.bullet_selection = Some(BulletSelection { anchor_id, head_id });
            assert(self@ =~= before.everything_selected());
            return ;
        }
        assert(before.bullets[at as int].text.wf());
        self.bullets[at].textbox.select_all();
        assert(self@ =~= before.everything_selected());
    }

    // -----------------------------------------------------------------------
    // Snapshots
    // -----------------------------------------------------------------------

    /// A copy of what undo restores.
    pub fn snapshot(&self) -> (s: OutlineSnapshot)
        ensures
            s@ == self@.doc(
                match self.embed() {
                    Some(h) => Some(h.target),
                    None => None,
                },
            ),
    {
        let mut bullets: Vec<BulletSnapshot> = Vec::new();
        let ghost bs = self@.bullets;
        let mut i: usize = 0;
        while i < self.bullets.len()
            invariant
                i <= self.bullets.len(),
                bs == views(self.bullets@),
                bullets@.len() == i,
                forall|k: int| 0 <= k < i ==> (#[trigger] bullets@[k])@ == bs[k].doc(),
            decreases self.bullets.len() - i,
        {
            assert(bs[i as int] == self.bullets@[i as int]@);
            let b = &self.bullets[i];
            bullets.push(
                BulletSnapshot {
                    id: b.id,
                    textbox: b.textbox.snapshot(),
                    depth: b.depth,
                    closed_at: b.closed_at,
                    resurface_after: b.resurface_after,
                },
            );
            i += 1;
        }
        assert(views(bullets@) =~= docs_of(bs));
        OutlineSnapshot {
            bullets,
            focused_bullet: self.focused_bullet,
            reference_header: match &self.reference_header {
                Some(h) => Some(h.target()),
                None => None,
            },
        }
    }

    /// Puts a snapshot back; the embed's preview is made anew later.
    pub fn restore(&mut self, snap: OutlineSnapshot)
        requires
            outline_doc_wf(snap@),
        ensures
            final(self)@ == old(self)@.restored(snap@),
            final(self).embed() == (match snap@.target {
                Some(t) => Some(EmbedModel::fresh(t)),
                None => None,
            }),
            final(self)@.wf(),
    {
        let ghost d = snap@;
        let mut bullets: Vec<Bullet> = Vec::new();
        let mut i: usize = 0;
        while i < snap.bullets.len()
            invariant
                i <= snap.bullets.len(),
                d.bullets == views(snap.bullets@),
                outline_doc_wf(d),
                bullets@.len() == i,
                forall|k: int|
                    0 <= k < i ==> (#[trigger] bullets@[k])@ == d.bullets[k].bullet()
                        && bullets@[k]@.text.wf(),
            decreases snap.bullets.len() - i,
        {
            assert(d.bullets[i as int] == snap.bullets@[i as int]@);
            assert(d.bullets[i as int].doc.wf());
            let b = &snap.bullets[i];
            let empty = String::new();
            assert(utf8(empty@) =~= Seq::<u8>::empty());
            let mut tb = TextBox::new(empty);
            tb.restore(b.textbox.duplicate());
            bullets.push(
                Bullet {
                    id: b.id,
                    textbox: tb,
                    depth: b.depth,
                    closed_at: b.closed_at,
                    resurface_after: b.resurface_after,
                },
            );
            i += 1;
        }
        assert(views(bullets@) =~= bullets_of(d.bullets));
        self.bullets = bullets;
        self.focused_bullet = snap.focused_bullet;
        self.drag = None;
        self.bullet_selection = None;
        self.reference_header = match snap.reference_header {
            Some(t) => Some(EmbeddedReference::new(t)),
            None => None,
        };
        proof {
            assert(self@ =~= old(self)@.restored(d));
            assert forall|k: int| 0 <= k < self@.bullets.len() implies (
            #[trigger] self@.bullets[k]).text.wf() by {
                assert(self@.bullets[k] == bullets@[k]@);
            }
        }
    }

    // -----------------------------------------------------------------------
    // Links and tags
    // -----------------------------------------------------------------------

    /// The address that the last press of the mouse button marked in a bullet,
    /// handed out once.
    pub fn take_own_pending_link_url(&mut self) -> (url: Option<String>)
        requires
            old(self)@.wf(),
        ensures
            ({
                let k = old(self)@.pending_at(0);
                if k < old(self)@.bullets.len() {
                    let t = old(self)@.bullets[k].text;
                    &&& optional_bytes(url) == t.pending_url
                    &&& final(self)@ == old(self)@.saying(k, TextModel { pending_url: None, ..t })
                } else {
                    url is None && final(self)@ == old(self)@
                }
            }),
            final(self).embed() == old(self).embed(),
            final(self)@.wf(),
    {
        let ghost before = self@;
        let ghost e = self.embed();
        let mut k: usize = 0;
        while k < self.bullets.len()
            invariant
                k <= self.bullets.len(),
                self@ == before,
                before.wf(),
                before.pending_at(0) == before.pending_at(k as int),
                self.embed() == e,
                e == old(self).embed(),
                before == old(self)@,
            decreases self.bullets.len() - k,
        {
            assert(before.bullets[k as int] == self.bullets@[k as int]@);
            assert(before.bullets[k as int].text.wf());
            let url = self.bullets[k].textbox.take_pending_link_url();
            let ghost t = before.bullets[k as int].text;
            proof {
                if t.pending_url is None {
                    assert(TextModel { pending_url: None, ..t } =~= t);
                    assert(self@.bullets =~= before.bullets);
                    assert(self@ =~= before);
                } else {
                    assert(self@ =~= before.saying(
                        k as int,
                        TextModel { pending_url: None, ..t },
                    ));
                    assert((TextModel { pending_url: None, ..t }).wf());
                }
            }
            if url.is_some() {
                return url;
            }
            k += 1;
        }
        None
    }

    /// Puts the addresses of all links in the bullets behind `out`.
    pub fn all_link_urls_into(&self, out: &mut Vec<String>)
        ensures
            bytes_of(final(out)@) == bytes_of(old(out)@) + link_urls(
                texts(self@.bullets),
                self@.bullets.len() as int,
            ),
    {
        let ghost ts = texts(self@.bullets);
        let ghost start = bytes_of(out@);
        let mut i: usize = 0;
        assert(start + link_urls(ts, 0) =~= start);
        while i < self.bullets.len()
            invariant
                i <= self.bullets.len(),
                ts == texts(views(self.bullets@)),
                bytes_of(out@) == start + link_urls(ts, i as int),
            decreases self.bullets.len() - i,
        {
            assert(ts[i as int] == self.bullets@[i as int]@.text);
            push_link_urls(&self.bullets[i].textbox, out);
            i += 1;
            assert(bytes_of(out@) =~= start + link_urls(ts, i as int));
        }
    }

    /// Puts the tags of the bullets that `out` does not hold yet behind it.
    pub fn all_tag_names_into(&self, out: &mut Vec<String>)
        ensures
            bytes_of(final(out)@) == tag_names(
                bytes_of(old(out)@),
                texts(self@.bullets),
                self@.bullets.len() as int,
            ),
    {
        let ghost ts = texts(self@.bullets);
        let ghost start = bytes_of(out@);
        let mut i: usize = 0;
        while i < self.bullets.len()
            invariant
                i <= self.bullets.len(),
                ts == texts(views(self.bullets@)),
                bytes_of(out@) == tag_names(start, ts, i as int),
            decreases self.bullets.len() - i,
        {
            assert(ts[i as int] == self.bullets@[i as int]@.text);
            self.bullets[i].textbox.all_tag_names_into(out);
            i += 1;
        }
    }

    /// Removes the tag `name` from every bullet. Returns whether there was one.
    pub fn remove_tags_named(&mut self, name: &str) -> (r: bool)
        requires
            old(self)@.wf(),
        ensures
            final(self)@ == old(self)@.listing(
                texts_mapped(old(self)@.bullets, untagged(utf8(name@))),
            ),
            r == any_untagged(texts(old(self)@.bullets), utf8(name@)),
            final(self).embed() == old(self).embed(),
            final(self)@.wf(),
    {
        let ghost before = self@;
        let ghost bs = before.bullets;
        let ghost ts = texts(bs);
        let ghost e = self.embed();
        let ghost f = untagged(utf8(name@));
        let mut changed: bool = false;
        let mut i: usize = 0;
        assert(before.listing(views(self.bullets@)) =~= before);
        while i < self.bullets.len()
            invariant
                i <= self.bullets.len(),
                bs == before.bullets,
                before.wf(),
                ts == texts(bs),
                f == untagged(utf8(name@)),
                self.bullets@.len() == bs.len(),
                changed == (exists|j: int|
                    0 <= j < i && f(#[trigger] ts[j]).doc.links.len() != ts[j].doc.links.len()),
                forall|j: int|
                    0 <= j < i ==> (#[trigger] self.bullets@[j])@ == texts_mapped(bs, f)[j]
                        && self.bullets@[j]@.text.wf(),
                forall|j: int| i <= j < bs.len() ==> (#[trigger] self.bullets@[j])@ == bs[j],
                self@ == before.listing(views(self.bullets@)),
                self.embed() == e,
            decreases self.bullets.len() - i,
        {
            assert(self.bullets@[i as int]@ == bs[i as int]);
            assert(bs[i as int].text.wf());
            assert(ts[i as int] == bs[i as int].text);
            if self.bullets[i].textbox.remove_tags_named(name) {
                changed = true;
                assert(f(ts[i as int]).doc.links.len() != ts[i as int].doc.links.len());
            }
            i += 1;
            assert(self@ =~= before.listing(views(self.bullets@)));
        }
        proof {
            assert(self@.bullets =~= texts_mapped(bs, f));
            assert forall|j: int| 0 <= j < bs.len() implies (
            #[trigger] self@.bullets[j]).text.wf() by {
                assert(self@.bullets[j] == self.bullets@[j]@);
            }
        }
        changed
    }

    /// The bullets whose text spells one of `include_tags`, in any case, and their
    /// subtrees.
    pub fn bullets_matching_any_tag(&self, include_tags: &[String]) -> (ids: HashSet<Uuid>)
        ensures
            forall|id: Uuid|
                #[trigger] ids@.contains(id) == tagged(
                    self@.bullets,
                    bytes_of(include_tags@),
                    id,
                ),
    {
        broadcast use vstd::std_specs::hash::group_hash_axioms;

        let ghost bs = self@.bullets;
        let ghost tags = bytes_of(include_tags@);
        let mut ids: HashSet<Uuid> = HashSet::new();
        let mut j: usize = 0;
        let n: usize = self.bullets.len();
        while j < n
            invariant
                j <= n,
                n == bs.len(),
                bs == views(self.bullets@),
                bs == self@.bullets,
                tags == bytes_of(include_tags@),
                forall|id: Uuid|
                    #[trigger] ids@.contains(id) == (exists|p: int, i: int|
                        #![trigger bs[p], bs[i]]
                        0 <= p < j && p <= i < subtree_end(bs, bs[p].depth, p + 1) && bs[i].id
                            == id && spells_any(bs[p].text.doc.text, tags)),
            decreases n - j,
        {
            broadcast use vstd::std_specs::hash::group_hash_axioms;

            assert(bs[j as int] == self.bullets@[j as int]@);
            let ghost was = ids@;
            if text_spells_any(self.bullets[j].textbox.text(), include_tags) {
                proof {
                    lemma_subtree_end(bs, bs[j as int].depth, j + 1);
                }
                let end: usize = self.subtree_end_from(self.bullets[j].depth, j + 1);
                let mut i: usize = j;
                while i < end
                    invariant
                        j <= i <= end,
                        end <= n,
                        n == bs.len(),
                        bs == views(self.bullets@),
                        forall|id: Uuid|
                            #[trigger] ids@.contains(id) == (was.contains(id) || exists|k: int|
                                j <= k < i && (#[trigger] bs[k]).id == id),
                    decreases end - i,
                {
                    broadcast use vstd::std_specs::hash::group_hash_axioms;

                    assert(bs[i as int] == self.bullets@[i as int]@);
                    let ghost held = ids@;
                    let _ = ids.insert(self.bullets[i].id);
                    assert forall|id: Uuid| #[trigger] ids@.contains(id) == (was.contains(id)
                        || exists|k: int| j <= k < i + 1 && (#[trigger] bs[k]).id == id) by {
                        if ids@.contains(id) && !held.contains(id) {
                            assert(bs[i as int].id == id);
                        }
                    }
                    i += 1;
                }
            }
            assert forall|id: Uuid| #[trigger] ids@.contains(id) == (exists|p: int, i: int|
                #![trigger bs[p], bs[i]]
                0 <= p < j + 1 && p <= i < subtree_end(bs, bs[p].depth, p + 1) && bs[i].id == id
                    && spells_any(bs[p].text.doc.text, tags)) by {
                if ids@.contains(id) && !was.contains(id) {
                    let k = choose|k: int|
                        j <= k < subtree_end(bs, bs[j as int].depth, j + 1) && (#[trigger] bs[k]).id
                            == id;
                    assert(bs[j as int] == bs[j as int]);
                    assert(bs[k].id == id);
                }
            }
            j += 1;
        }
        ids
    }
}

/// Whether `text` spells one of `tags`, in any case.
fn text_spells_any(text: &str, tags: &[String]) -> (r: bool)
    ensures
        r == spells_any(utf8(text@), bytes_of(tags@)),
{
    let ghost b = utf8(text@);
    let ghost all = bytes_of(tags@);
    let found = parse_inline_tags(text);
    let ghost fs = inline_tags(b, b.len() as int);
    proof {
        lemma_utf8_valid(text@);
        lemma_inline_tags(b, b.len() as int);
    }
    let mut k: usize = 0;
    while k < found.len()
        invariant
            k <= found.len(),
            b == utf8(text@),
            valid_utf8(b),
            all == bytes_of(tags@),
            fs == spans(found@),
            fs == inline_tags(b, b.len() as int),
            forall|i: int|
                0 <= i < fs.len() ==> 0 <= (#[trigger] fs[i]).start < fs[i].end <= b.len()
                    && b[fs[i].start] == 35 && boundary(b, fs[i].end),
            forall|p: int, j: int|
                #![trigger fs[p], all[j]]
                0 <= p < k && 0 <= j < all.len() ==> !spells(b, fs[p], all[j]),
        decreases found.len() - k,
    {
        assert(fs[k as int] == span(found@[k as int]));
        let start: usize = found[k].start;
        let end: usize = found[k].end;
        if end - start > 1 {
            proof {
                lemma_after_ascii(b, start as int);
            }
            let name = text::slice(text, start + 1, end);
            let mut j: usize = 0;
            while j < tags.len()
                invariant
                    j <= tags.len(),
                    k < fs.len(),
                    b == utf8(text@),
                    all == bytes_of(tags@),
                    fs == inline_tags(b, b.len() as int),
                    fs[k as int] == (Span { start: start as int, end: end as int }),
                    end > start + 1,
                    utf8(name@) == b.subrange(start + 1, end as int),
                    forall|q: int|
                        0 <= q < j ==> !spells(b, fs[k as int], #[trigger] all[q]),
                decreases tags.len() - j,
            {
                assert(all[j as int] == utf8(tags@[j as int]@));
                if text::same_folded(name, tags[j].as_str()) {
                    assert(spells(b, fs[k as int], all[j as int]));
                    return true;
                }
                j += 1;
            }
        }
        k += 1;
    }
    false
}

/// What undo restores of a bullet.
pub struct BulletSnapshot {
    pub id: Uuid,
    pub textbox: TextBoxSnapshot,
    pub depth: u32,
    pub closed_at: Option<i64>,
    pub resurface_after: Option<i64>,
}

impl View for BulletSnapshot {
    type V = BulletDoc;

    open spec fn view(&self) -> BulletDoc {
        BulletDoc {
            id: self.id,
            doc: self.textbox@,
            depth: self.depth,
            closed_at: self.closed_at,
            resurface_after: self.resurface_after,
        }
    }
}

/// What undo restores of an outline.
pub struct OutlineSnapshot {
    pub bullets: Vec<BulletSnapshot>,
    pub focused_bullet: Uuid,
    pub reference_header: Option<ReferenceTarget>,
}

impl View for OutlineSnapshot {
    type V = OutlineDoc;

    open spec fn view(&self) -> OutlineDoc {
        OutlineDoc {
            bullets: views(self.bullets@),
            focused: self.focused_bullet,
            target: self.reference_header,
        }
    }
}

/// Whether two moments are the same.
fn same_moment(a: Option<i64>, b: Option<i64>) -> (r: bool)
    ensures
        r == (a == b),
{
    match (a, b) {
        (Some(x), Some(y)) => x == y,
        (None, None) => true,
        _ => false,
    }
}

/// The links that pasting `s` with `links` puts in.
pub open spec fn pasted_links(s: Seq<char>, links: Seq<LinkSpan>) -> Seq<Link> {
    if links.len() == 0 {
        url_links(utf8(s))
    } else {
        views(links)
    }
}

/// The mathematical content of a bullet on its way through the clipboard.
pub open spec fn item_view(it: (u32, String, Vec<LinkSpan>)) -> ItemModel {
    ItemModel { depth: it.0, text: utf8(it.1@), links: views(it.2@) }
}

/// The mathematical content of bullets on their way through the clipboard.
pub open spec fn item_views(items: Seq<(u32, String, Vec<LinkSpan>)>) -> Seq<ItemModel> {
    Seq::new(items.len(), |i: int| item_view(items[i]))
}

/// How a bullet is drawn.
pub struct RowPlan {
    pub visible: bool,
    pub indent: u32,
    pub dimmed: bool,
    pub highlighted: bool,
    pub focused: bool,
    pub caret: bool,
}

impl View for RowPlan {
    type V = RowModel;

    open spec fn view(&self) -> RowModel {
        RowModel {
            visible: self.visible,
            indent: self.indent as int,
            dimmed: self.dimmed,
            highlighted: self.highlighted,
            focused: self.focused,
            caret: self.caret,
        }
    }
}

/// Whether `s` holds a character that is no control character.
fn has_visible(s: &str) -> (r: bool)
    ensures
        r == exists|i: int| 0 <= i < s@.len() && !control(#[trigger] s@[i]),
{
    let n: usize = s.unicode_len();
    let mut i: usize = 0;
    while i < n
        invariant
            n == s@.len(),
            i <= n,
            forall|j: int| 0 <= j < i ==> control(#[trigger] s@[j]),
        decreases n - i,
    {
        let c: char = s.get_char(i);
        if !(c <= '\u{1f}' || ('\u{7f}' <= c && c <= '\u{9f}')) {
            assert(!control(s@[i as int]));
            return true;
        }
        i += 1;
    }
    false
}

/// Whether a key's text holds a character that is no control character.
fn types_something(text: &Option<String>) -> (r: bool)
    ensures
        r == (text matches Some(s) && exists|i: int|
            0 <= i < s@.len() && !control(#[trigger] s@[i])),
{
    match text {
        Some(s) => has_visible(s.as_str()),
        None => false,
    }
}

/// A copy of links.
fn copy_links(links: &[LinkSpan]) -> (c: Vec<LinkSpan>)
    ensures
        views(c@) == views(links@),
{
    let mut c: Vec<LinkSpan> = Vec::new();
    let mut i: usize = 0;
    while i < links.len()
        invariant
            i <= links.len(),
            c@.len() == i,
            forall|k: int| 0 <= k < i ==> (#[trigger] c@[k])@ == links@[k]@,
        decreases links.len() - i,
    {
        c.push(links[i].duplicate());
        i += 1;
    }
    assert(views(c@) =~= views(links@));
    c
}

/// A text box made of a text and links onto it.
fn text_box_of(text: &str, links: Vec<LinkSpan>, scale: u32) -> (t: TextBox)
    ensures
        t@ == text_of(utf8(text@), views(links@), scale),
        t@.wf(),
{
    let n: usize = text::len(text);
    let empty = String::new();
    assert(utf8(empty@) =~= Seq::<u8>::empty());
    let mut t = TextBox::new(empty);
    proof {
        let ls = views(links@);
        assert forall|i: int| #![trigger ls[i]] 0 <= i < ls.len() implies 0 <= ls[i].start
            && ls[i].start + 0 <= usize::MAX && 0 <= ls[i].end && ls[i].end + 0 <= usize::MAX by {
            assert(ls[i] == links@[i]@);
        }
    }
    t.append_with_links(text, links);
    t.set_font_scale(scale);
    t
}

/// `link` tells depth and openness of bullet `j`, and all bullets between it and
/// `i` are deeper.
spec fn chain_link(bs: Seq<BulletModel>, i: int, j: int, link: (u32, bool)) -> bool {
    &&& 0 <= j < i
    &&& j < bs.len()
    &&& link.0 == bs[j].depth
    &&& link.1 == (bs[j].closed_at is None)
    &&& forall|k: int| j < k < i ==> (#[trigger] bs[k]).depth > bs[j].depth
}

/// `chain` tells of the bullets `at`, in order.
spec fn chain_of(bs: Seq<BulletModel>, i: int, at: Seq<int>, chain: Seq<(u32, bool)>) -> bool {
    &&& at.len() == chain.len()
    &&& forall|p: int| 0 <= p < at.len() ==> chain_link(bs, i, #[trigger] at[p], chain[p])
    &&& forall|p: int, q: int| 0 <= p < q < at.len() ==> at[p] < at[q]
}

proof fn lemma_chain_rises(
    bs: Seq<BulletModel>,
    i: int,
    at: Seq<int>,
    chain: Seq<(u32, bool)>,
    p: int,
)
    requires
        chain_of(bs, i, at, chain),
        i <= bs.len(),
        0 <= p < at.len(),
    ensures
        chain[p].0 <= chain.last().0,
{
    assert(chain_link(bs, i, at[p], chain[p]));
    let last = at.len() - 1;
    assert(chain_link(bs, i, at[last], chain[last]));
    if p < last {
        assert(at[p] < at[last]);
        assert(bs[at[last]].depth > bs[at[p]].depth);
    }
}

proof fn lemma_chain_rises_at(
    bs: Seq<BulletModel>,
    i: int,
    at: Seq<int>,
    chain: Seq<(u32, bool)>,
    p: int,
    depth: u32,
)
    requires
        chain_of(bs, i, at, chain),
        i < bs.len(),
        0 <= p < at.len(),
        bs[i].depth == depth,
        chain.len() > 0 ==> chain.last().0 < depth,
    ensures
        chain_link(bs, i + 1, at[p], chain[p]),
{
    lemma_chain_rises(bs, i, at, chain, p);
    assert(chain_link(bs, i, at[p], chain[p]));
}

fn empty_bullet(id: Uuid) -> (b: Bullet)
    ensures
        b@ == BulletModel::fresh(id, TextModel::fresh(Seq::empty()), 0),
        b@.text.wf(),
{
    let text = String::new();
    assert(utf8(text@) =~= Seq::<u8>::empty());
    Bullet::new(id, TextBox::new(text), 0)
}

/// The outline that bullets make: the first has the focus. Where there are none
/// there is one empty bullet, `ids.1`, and `ids.0` has the focus.
pub open spec fn outline_of(bs: Seq<BulletModel>, ids: (Uuid, Uuid)) -> OutlineModel {
    let fresh = OutlineModel::fresh(ids.1);
    if bs.len() == 0 {
        fresh.focusing(ids.0)
    } else {
        fresh.listing(bs).focusing(bs[0].id)
    }
}

/// An empty text box is well formed.
pub proof fn lemma_fresh_wf()
    ensures
        TextModel::fresh(Seq::empty()).wf(),
{
    let none = Seq::<u8>::empty();
    assert(utf8(Seq::empty()) =~= none);
    lemma_utf8_valid(Seq::empty());
    lemma_boundary_ends(none);
    assert(placed(none, SelectionSet::at(0).items[0]));
}

} // verus!
