//! `PlainCell`: a body that is one text.
use vstd::prelude::*;

use crate::cell::model::TextModel;
use crate::cell::textbox::TextBox;
use crate::text::utf8;

verus! {

/// A body that is one text.
pub struct PlainCell {
    body: TextBox,
}

impl View for PlainCell {
    type V = TextModel;

    closed spec fn view(&self) -> TextModel {
        self.body@
    }
}

impl PlainCell {
    /// A body with a text in it.
    pub fn new(text: String) -> (p: PlainCell)
        ensures
            p@ == TextModel::fresh(utf8(text@)),
            p@.wf(),
    {
        PlainCell { body: TextBox::new(text) }
    }

    /// A body around a text box.
    pub fn from_textbox(body: TextBox) -> (p: PlainCell)
        ensures
            p@ == body@,
    {
        PlainCell { body }
    }

    /// The text box.
    pub fn body(&self) -> (t: &TextBox)
        ensures
            (*t)@ == self@,
    {
        &self.body
    }

    /// The text box, to be changed.
    pub fn body_mut(&mut self) -> (t: &mut TextBox)
        ensures
            (*t)@ == old(self)@,
            final(self)@ == final(t)@,
    {
        &mut self.body
    }

    /// A fresh body that is drawn as this one is, at another zoom.
    pub fn clone_for_cache(&self, scale: u32) -> (p: PlainCell)
        requires
            self@.wf(),
        ensures
            p@ == self@.cached(scale),
            p@.wf(),
    {
        PlainCell { body: self.body.clone_for_cache(scale) }
    }
}

} // verus!
