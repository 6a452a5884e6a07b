//! Threads: named clusters of pointers at cells and at bullets. A thread owns no
//! content; what belongs to it is recorded as memberships.
use vstd::prelude::*;

use crate::text;
use crate::cell::reference::ReferenceTarget;
use crate::ids::Uuid;
use crate::text::utf8;

verus! {

/// The identity of a thread.
pub type ThreadId = Uuid;

/// A thread. A closed one is left out of the sidebar.
#[derive(Debug)]
pub struct Thread {
    pub id: ThreadId,
    pub title: String,
    pub created_at: i64,
    pub edited_at: i64,
    pub closed_at: Option<i64>,
}

/// What a thread is.
#[verifier::ext_equal]
pub struct ThreadModel {
    pub id: ThreadId,
    pub title: Seq<u8>,
    pub created_at: i64,
    pub edited_at: i64,
    pub closed_at: Option<i64>,
}

impl View for Thread {
    type V = ThreadModel;

    open spec fn view(&self) -> ThreadModel {
        ThreadModel {
            id: self.id,
            title: utf8(self.title@),
            created_at: self.created_at,
            edited_at: self.edited_at,
            closed_at: self.closed_at,
        }
    }
}

impl Clone for Thread {
    fn clone(&self) -> (t: Self)
        ensures
            t@ == self@,
    {
        Thread {
            id: self.id,
            title: text::copy(self.title.as_str()),
            created_at: self.created_at,
            edited_at: self.edited_at,
            closed_at: self.closed_at,
        }
    }
}

/// That a cell, or a bullet with its subtree, belongs to a thread.
#[derive(Clone, Copy, Debug, PartialEq, Eq, Structural)]
pub struct ThreadMembership {
    pub thread_id: ThreadId,
    pub target: ReferenceTarget,
    pub attached_at: i64,
}

impl View for ThreadMembership {
    type V = ThreadMembership;

    open spec fn view(&self) -> ThreadMembership {
        *self
    }
}

} // verus!
