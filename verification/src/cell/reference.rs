//! Read-only embeds of another cell, or of a bullet and its subtree. A reference
//! holds what it points at and, for as long as the session lasts, a preview of
//! that: a cell of its own, made anew whenever the source has been edited.
use vstd::prelude::*;

use crate::cell::{Cell, CellModel};
use crate::cell::common::{LinkSpan, Modifiers};
use crate::cell::model::DEFAULT_SCALE;
use crate::cell::spots::Spot;
use crate::cell::textbox::{optional_bytes, picked_view};
use crate::ids::Uuid;
use crate::text::utf8;

verus! {

/// What a reference points at: a whole cell, or a bullet of an outline with its
/// subtree.
#[derive(Clone, Copy, Debug, PartialEq, Eq, Structural)]
pub enum ReferenceTarget {
    WholeCell(Uuid),
    Subtree { cell_id: Uuid, bullet_id: Uuid },
}

impl ReferenceTarget {
    /// The cell pointed at, or pointed into.
    #[verifier::allow_in_spec]
    pub fn cell_id(self) -> Uuid
        returns
            (match self {
                ReferenceTarget::WholeCell(id) => id,
                ReferenceTarget::Subtree { cell_id, .. } => cell_id,
            }),
    {
        match self {
            ReferenceTarget::WholeCell(id) => id,
            ReferenceTarget::Subtree { cell_id, .. } => cell_id,
        }
    }
}

/// A reference and its preview.
#[verifier::ext_equal]
pub struct EmbedModel {
    pub target: ReferenceTarget,
    pub cache: Option<Box<CellModel>>,
    /// When the source had last been edited when the preview was made.
    pub source_edited_at: Option<i64>,
}

impl EmbedModel {
    /// A reference without a preview.
    pub open spec fn fresh(target: ReferenceTarget) -> EmbedModel {
        EmbedModel { target, cache: None, source_edited_at: None }
    }

    /// The preview is not one of the source as it is: there is a source and no
    /// preview, or one made at another state of it; or a preview and no source.
    pub open spec fn stale_for(self, source: Option<i64>) -> bool {
        match source {
            None => self.cache is Some,
            Some(_) => self.cache is None || self.source_edited_at != source,
        }
    }

    /// With another preview.
    pub open spec fn caching(self, cache: Option<CellModel>) -> EmbedModel {
        EmbedModel {
            cache: match cache {
                Some(c) => Some(Box::new(c)),
                None => None,
            },
            ..self
        }
    }

    /// The preview, where there is one, is well formed.
    pub open spec fn wf(self) -> bool
        decreases self,
    {
        match self.cache {
            Some(c) => (*c).wf(),
            None => true,
        }
    }
}

/// A preview just made of the source as it is, or dropped because the source is
/// gone, is not stale.
pub proof fn a_fresh_preview_is_not_stale(e: EmbedModel, cache: CellModel, at: i64)
    ensures
        !(EmbedModel { source_edited_at: Some(at), ..e.caching(Some(cache)) }).stale_for(Some(at)),
        !(EmbedModel { source_edited_at: None, ..e.caching(None) }).stale_for(None),
{
}

/// A reference target and its preview.
pub struct EmbeddedReference {
    pub target: ReferenceTarget,
    cache: Option<Box<Cell>>,
    cache_source_edited_at: Option<i64>,
}

impl EmbeddedReference {
    /// The mathematical content of the reference.
    pub closed spec fn model(self) -> EmbedModel
        decreases self,
    {
        EmbedModel {
            target: self.target,
            cache: match self.cache {
                Some(c) => Some(Box::new((*c).model())),
                None => None,
            },
            source_edited_at: self.cache_source_edited_at,
        }
    }

    /// A reference without a preview.
    pub fn new(target: ReferenceTarget) -> (e: EmbeddedReference)
        ensures
            e.model() == EmbedModel::fresh(target),
    {
        EmbeddedReference { target, cache: None, cache_source_edited_at: None }
    }

    /// What the reference points at.
    pub fn target(&self) -> (t: ReferenceTarget)
        ensures
            t == self.model().target,
    {
        self.target
    }

    /// Whether the preview has to be made anew, or dropped, for a source last
    /// edited at `source_edited_at`; for a source that is gone, `None`.
    pub fn cache_is_stale_for(&self, source_edited_at: Option<i64>) -> (r: bool)
        ensures
            r == self.model().stale_for(source_edited_at),
    {
        match source_edited_at {
            None => self.cache.is_some(),
            Some(src) => {
                if self.cache.is_none() {
                    true
                } else {
                    match self.cache_source_edited_at {
                        Some(cached) => src != cached,
                        None => true,
                    }
                }
            },
        }
    }

    /// Puts a preview in place, or drops it where the source is gone.
    pub fn install_cache(&mut self, new_cache: Option<Cell>, source_edited_at: Option<i64>)
        ensures
            final(self).model() == (EmbedModel {
                source_edited_at,
                ..old(self).model().caching(
                    match new_cache {
                        Some(c) => Some(c.model()),
                        None => None,
                    },
                )
            }),
    {
        self.cache = match new_cache {
            Some(c) => Some(Box::new(c)),
            None => None,
        };
        self.cache_source_edited_at = source_edited_at;
    }

    /// The preview, to be changed.
    pub fn cache_mut(&mut self) -> (r: Option<&mut Cell>)
        ensures
            match r {
                Some(c) => {
                    &&& old(self).model().cache == Some(Box::new(c.model()))
                    &&& final(self).model() == old(self).model().caching(Some(final(c).model()))
                },
                None => old(self).model().cache is None && final(self).model() == old(
                    self,
                ).model(),
            },
    {
        match &mut self.cache {
            Some(c) => Some(&mut **c),
            None => None,
        }
    }

    /// The preview.
    pub fn cache_ref(&self) -> (r: Option<&Cell>)
        ensures
            match r {
                Some(c) => self.model().cache == Some(Box::new((*c).model())),
                None => self.model().cache is None,
            },
    {
        match &self.cache {
            Some(c) => Some(&**c),
            None => None,
        }
    }

    /// The address that the last press of the mouse button marked in the preview,
    /// handed out once.
    pub fn take_pending_link_url(&mut self) -> (url: Option<String>)
        requires
            old(self).model().wf(),
        ensures
            optional_bytes(url) == old(self).model().pending(),
            final(self).model() == old(self).model().followed(),
            final(self).model().wf(),
        decreases *old(self),
    {
        match self.cache.as_mut() {
            Some(c) => c.take_pending_link_url(),
            None => None,
        }
    }

    /// Ends a drag in the preview. Returns whether there was one.
    pub fn mouse_up(&mut self) -> (r: bool)
        requires
            old(self).model().wf(),
        ensures
            r == old(self).model().release_shows(),
            final(self).model() == old(self).model().released(),
            final(self).model().wf(),
        decreases *old(self),
    {
        match self.cache.as_mut() {
            Some(c) => c.mouse_up(),
            None => false,
        }
    }

    /// What is selected first in the texts of the preview, with its links.
    pub fn copy_text_selection_with_links(&self) -> (r: Option<(String, Vec<LinkSpan>)>)
        requires
            self.model().wf(),
        ensures
            picked_view(r) == self.model().picked(),
        decreases self,
    {
        match &self.cache {
            Some(c) => {
                if let Some(t) = &c.title {
                    let above = t.copy_primary_selection_with_links();
                    if above.is_some() {
                        return above;
                    }
                }
                c.kind.copy_primary_selection_with_links()
            },
            None => None,
        }
    }

    /// Whether a text of the preview has a selection.
    pub fn has_selection(&self) -> (r: bool)
        ensures
            r == self.model().text_selected(),
        decreases self,
    {
        match &self.cache {
            Some(c) => {
                let above: bool = match &c.title {
                    Some(t) => t.has_selection(),
                    None => false,
                };
                above || c.kind.has_selection()
            },
            None => false,
        }
    }

    /// What is selected in the preview, with its links.
    pub fn copy_primary_selection_with_links(&self) -> (r: Option<(String, Vec<LinkSpan>)>)
        requires
            self.model().wf(),
        ensures
            picked_view(r) == (match self.model().cache {
                Some(c) => (*c).picked(),
                None => None,
            }),
        decreases self,
    {
        match &self.cache {
            Some(c) => (**c).copy_primary_selection_with_links(),
            None => None,
        }
    }

    /// What is selected in the preview.
    pub fn copy_text(&self) -> (s: String)
        requires
            self.model().wf(),
        ensures
            utf8(s@) == self.model().copied(),
        decreases self,
    {
        match &self.cache {
            Some(c) => (**c).copy_text(),
            None => {
                let none = String::new();
                assert(utf8(none@) =~= Seq::<u8>::empty());
                none
            },
        }
    }

    /// Selects everything in the preview.
    pub fn select_all_focused(&mut self)
        requires
            old(self).model().wf(),
        ensures
            final(self).model() == old(self).model().everything_selected(),
            final(self).model().wf(),
        decreases *old(self),
    {
        if let Some(c) = self.cache.as_mut() {
            c.select_all_focused();
        }
    }

    /// Drops every selection in the preview.
    pub fn clear_all_selections(&mut self)
        requires
            old(self).model().wf(),
        ensures
            final(self).model() == old(self).model().all_collapsed(),
            final(self).model().wf(),
        decreases *old(self),
    {
        if let Some(c) = self.cache.as_mut() {
            c.clear_all_selections();
        }
    }

    /// Takes the preview out, to be put back with `attach_cache`.
    pub fn detach_cache(&mut self) -> (r: Option<Box<Cell>>)
        ensures
            (match r {
                Some(c) => Some(Box::new((*c).model())),
                None => None,
            }) == old(self).model().cache,
            final(self).model() == old(self).model().caching(None),
    {
        self.cache.take()
    }

    /// Puts a preview back that `detach_cache` took out.
    pub fn attach_cache(&mut self, cache: Option<Box<Cell>>)
        ensures
            final(self).model() == old(self).model().caching(
                match cache {
                    Some(c) => Some((*c).model()),
                    None => None,
                },
            ),
    {
        self.cache = cache;
    }
}

/// A cell that shows another.
#[verifier::ext_equal]
pub struct ReferenceModel {
    pub head: EmbedModel,
    pub scale: u32,
}

/// A cell that shows another.
pub struct ReferenceCell {
    head: EmbeddedReference,
    font_scale: u32,
}

impl ReferenceCell {
    /// The mathematical content of the cell.
    pub closed spec fn model(self) -> ReferenceModel
        decreases self,
    {
        ReferenceModel { head: self.head.model(), scale: self.font_scale }
    }

    /// A reference without a preview.
    pub fn new(target: ReferenceTarget) -> (r: ReferenceCell)
        ensures
            r.model() == (ReferenceModel {
                head: EmbedModel::fresh(target),
                scale: DEFAULT_SCALE,
            }),
    {
        ReferenceCell { head: EmbeddedReference::new(target), font_scale: DEFAULT_SCALE }
    }

    /// Whether the preview has to be made anew, or dropped, for a source last
    /// edited at `source_edited_at`.
    pub fn cache_is_stale_for(&self, source_edited_at: Option<i64>) -> (r: bool)
        ensures
            r == self.model().head.stale_for(source_edited_at),
    {
        self.head.cache_is_stale_for(source_edited_at)
    }

    /// Puts a preview in place, or drops it where the source is gone.
    pub fn install_cache(&mut self, new_cache: Option<Cell>, source_edited_at: Option<i64>)
        ensures
            final(self).model() == (ReferenceModel {
                head: EmbedModel {
                    source_edited_at,
                    ..old(self).model().head.caching(
                        match new_cache {
                            Some(c) => Some(c.model()),
                            None => None,
                        },
                    )
                },
                ..old(self).model()
            }),
    {
        self.head.install_cache(new_cache, source_edited_at);
    }

    /// The preview, to be changed.
    pub fn cache_mut(&mut self) -> (r: Option<&mut Cell>)
        ensures
            match r {
                Some(c) => {
                    &&& old(self).model().head.cache == Some(Box::new(c.model()))
                    &&& final(self).model() == (ReferenceModel {
                        head: old(self).model().head.caching(Some(final(c).model())),
                        ..old(self).model()
                    })
                },
                None => old(self).model().head.cache is None && final(self).model() == old(
                    self,
                ).model(),
            },
    {
        self.head.cache_mut()
    }

    /// The preview.
    pub fn cache_ref(&self) -> (r: Option<&Cell>)
        ensures
            match r {
                Some(c) => self.model().head.cache == Some(Box::new((*c).model())),
                None => self.model().head.cache is None,
            },
    {
        self.head.cache_ref()
    }

    /// Takes the preview out, to be put back with `attach_cache`.
    pub fn detach_cache(&mut self) -> (r: Option<Box<Cell>>)
        ensures
            (match r {
                Some(c) => Some(Box::new((*c).model())),
                None => None,
            }) == old(self).model().head.cache,
            final(self).model() == (ReferenceModel {
                head: old(self).model().head.caching(None),
                ..old(self).model()
            }),
    {
        self.head.detach_cache()
    }

    /// Puts a preview back that `detach_cache` took out.
    pub fn attach_cache(&mut self, cache: Option<Box<Cell>>)
        ensures
            final(self).model() == (ReferenceModel {
                head: old(self).model().head.caching(
                    match cache {
                        Some(c) => Some((*c).model()),
                        None => None,
                    },
                ),
                ..old(self).model()
            }),
    {
        self.head.attach_cache(cache);
    }

    /// The address that the last press of the mouse button marked in the preview,
    /// handed out once. The title of the preview is asked, and its body.
    pub fn take_pending_link_url(&mut self) -> (url: Option<String>)
        requires
            old(self).model().head.wf(),
        ensures
            optional_bytes(url) == old(self).model().head.pending(),
            final(self).model() == (ReferenceModel {
                head: old(self).model().head.followed(),
                ..old(self).model()
            }),
            final(self).model().head.wf(),
        decreases *old(self),
    {
        self.head.take_pending_link_url()
    }

    /// Ends a drag in the preview. Returns whether there was one.
    pub fn mouse_up(&mut self) -> (r: bool)
        requires
            old(self).model().head.wf(),
        ensures
            r == old(self).model().head.release_shows(),
            final(self).model() == (ReferenceModel {
                head: old(self).model().head.released(),
                ..old(self).model()
            }),
            final(self).model().head.wf(),
        decreases *old(self),
    {
        self.head.mouse_up()
    }

    /// Selects everything in the preview.
    pub fn select_all_focused(&mut self)
        requires
            old(self).model().head.wf(),
        ensures
            final(self).model() == (ReferenceModel {
                head: old(self).model().head.everything_selected(),
                ..old(self).model()
            }),
            final(self).model().head.wf(),
        decreases *old(self),
    {
        self.head.select_all_focused();
    }

    /// Drops every selection in the preview.
    pub fn clear_all_selections(&mut self)
        requires
            old(self).model().head.wf(),
        ensures
            final(self).model() == (ReferenceModel {
                head: old(self).model().head.all_collapsed(),
                ..old(self).model()
            }),
            final(self).model().head.wf(),
        decreases *old(self),
    {
        self.head.clear_all_selections();
    }

    /// What is selected first in the texts of the preview, with its links.
    pub fn copy_primary_selection_with_links(&self) -> (r: Option<(String, Vec<LinkSpan>)>)
        requires
            self.model().head.wf(),
        ensures
            picked_view(r) == self.model().head.picked(),
        decreases self,
    {
        self.head.copy_text_selection_with_links()
    }

    /// Whether a text of the preview has a selection.
    pub fn has_selection(&self) -> (r: bool)
        ensures
            r == self.model().head.text_selected(),
        decreases self,
    {
        self.head.has_selection()
    }

    /// Hands a press of the mouse button to the preview.
    pub fn mouse_down(&mut self, spot: &Spot, mods: Modifiers)
        requires
            old(self).model().head.wf(),
            old(self).model().head.holds_spot(*spot),
        ensures
            final(self).model() == (ReferenceModel {
                head: old(self).model().head.pressed(*spot, mods),
                ..old(self).model()
            }),
            final(self).model().head.wf(),
        decreases spot, 4int,
    {
        self.head.mouse_down(spot, mods);
    }

    /// Hands a drag to the preview. Returns whether it showed.
    pub fn mouse_drag_to(&mut self, spot: &Spot) -> (r: bool)
        requires
            old(self).model().head.wf(),
            old(self).model().head.holds_spot(*spot),
            old(self).model().head.drag_fits(*spot),
        ensures
            final(self).model() == (ReferenceModel {
                head: old(self).model().head.dragged(*spot),
                ..old(self).model()
            }),
            r == (final(self).model() != old(self).model()),
            final(self).model().head.wf(),
        decreases spot, 4int,
    {
        self.head.mouse_drag_to(spot)
    }

    /// Whether what the spot lies in, in the preview, holds a drag.
    pub fn holds_drag(&self, spot: &Spot) -> (r: bool)
        ensures
            r == self.model().head.holds_drag(*spot),
        decreases spot, 4int,
    {
        self.head.holds_drag(spot)
    }

    /// Whether a link in the preview is under the pointer.
    pub fn link_at(&self, spot: &Spot) -> (r: bool)
        requires
            self.model().head.holds_spot(*spot),
        ensures
            r == self.model().head.links_at(*spot),
        decreases spot, 4int,
    {
        self.head.link_at(spot)
    }

    /// What is selected in the preview.
    pub fn copy_text(&self) -> (s: String)
        requires
            self.model().head.wf(),
        ensures
            utf8(s@) == self.model().head.copied(),
        decreases self,
    {
        self.head.copy_text()
    }

    /// What the reference points at.
    pub fn target(&self) -> (t: ReferenceTarget)
        ensures
            t == self.model().head.target,
    {
        self.head.target()
    }

    /// Points the reference elsewhere; the preview is dropped.
    pub fn set_target(&mut self, target: ReferenceTarget)
        ensures
            final(self).model() == (ReferenceModel {
                head: EmbedModel::fresh(target),
                ..old(self).model()
            }),
    {
        self.head.target = target;
        self.head.install_cache(None, None);
    }

    /// The zoom factor that the host set.
    pub fn font_scale(&self) -> (s: u32)
        ensures
            s == self.model().scale,
    {
        self.font_scale
    }

    /// Sets the zoom factor.
    pub fn set_font_scale(&mut self, scale: u32)
        ensures
            final(self).model() == (ReferenceModel { scale, ..old(self).model() }),
    {
        self.font_scale = scale;
    }
}

} // verus!
