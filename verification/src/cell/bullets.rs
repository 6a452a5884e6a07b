//! What an outline is, mathematically. An outline is a flat list of bullets with
//! a depth each; its tree is implicit: the children of a bullet are the run of
//! deeper bullets behind it.
use vstd::prelude::*;

use crate::cell::common::{
    primary_mod, word_mod, Affinity, EditModel, Key, KeyEvent, Link, Modifiers, SelectionSet,
};
use crate::cell::model::{
    after_drag, after_key, after_mouse_down, after_mouse_up, all_selected, collapsed, control,
    DEFAULT_SCALE, drag_fits, edit_fits, key_edits, line_count, links_room, place_at, primary_ends,
    primary_line, replacing, Click, Doc, TextModel,
};
use crate::cell::reference::ReferenceTarget;
use crate::cell::textbox::TextBox;
use crate::cell::wrap::{inline_tags, Span};
use crate::ids::Uuid;
use crate::text::{boundary, folded};

verus! {

/// One bullet of an outline.
#[verifier::ext_equal]
pub struct BulletModel {
    pub id: Uuid,
    pub text: TextModel,
    pub depth: u32,
    pub closed_at: Option<i64>,
    pub resurface_after: Option<i64>,
}

impl BulletModel {
    /// An open bullet without a schedule.
    pub open spec fn fresh(id: Uuid, text: TextModel, depth: u32) -> BulletModel {
        BulletModel { id, text, depth, closed_at: None, resurface_after: None }
    }

    /// With another text.
    pub open spec fn saying(self, text: TextModel) -> BulletModel {
        BulletModel { text, ..self }
    }

    /// With another depth.
    pub open spec fn at_depth(self, depth: int) -> BulletModel {
        BulletModel { depth: depth as u32, ..self }
    }
}

/// The bullets that a selection of whole bullets runs between.
#[derive(Clone, Copy, Debug, PartialEq, Eq, Structural)]
pub struct BulletSelection {
    pub anchor_id: Uuid,
    pub head_id: Uuid,
}

/// What a drag in an outline does.
#[derive(Clone, Copy, Debug, PartialEq, Eq, Structural)]
pub enum DragMode {
    /// It started in a bullet and has not left it: the bullet's text box extends
    /// its selection.
    TextBox,
    /// It has crossed into other bullets: whole bullets are selected, up to
    /// `head_id`.
    BulletRange { head_id: Uuid },
    /// It started in the embedded preview.
    Header,
}

/// A drag in progress.
#[derive(Clone, Copy, Debug, PartialEq, Eq, Structural)]
pub struct OutlineDrag {
    pub origin_id: Uuid,
    pub mode: DragMode,
}

/// The whole state of an outline, its embedded preview left out.
#[verifier::ext_equal]
pub struct OutlineModel {
    pub bullets: Seq<BulletModel>,
    pub focused: Uuid,
    pub drag: Option<OutlineDrag>,
    pub selection: Option<BulletSelection>,
    pub scale: u32,
    /// The bullets that the current view shows; all where there is none.
    pub filter: Option<Set<Uuid>>,
    pub show_inactive: bool,
}

/// The first bullet from `k` on that has the identity `id`; the number of
/// bullets where none has it.
pub open spec fn bullet_pos(bs: Seq<BulletModel>, id: Uuid, k: int) -> int
    decreases bs.len() - k,
{
    if k < 0 || k >= bs.len() {
        bs.len() as int
    } else if bs[k].id == id {
        k
    } else {
        bullet_pos(bs, id, k + 1)
    }
}

pub proof fn lemma_bullet_pos(bs: Seq<BulletModel>, id: Uuid, k: int)
    requires
        0 <= k <= bs.len(),
    ensures
        k <= bullet_pos(bs, id, k) <= bs.len(),
        bullet_pos(bs, id, k) < bs.len() ==> bs[bullet_pos(bs, id, k)].id == id,
        forall|j: int| k <= j < bullet_pos(bs, id, k) ==> (#[trigger] bs[j]).id != id,
    decreases bs.len() - k,
{
    if k < bs.len() && bs[k].id != id {
        lemma_bullet_pos(bs, id, k + 1);
    }
}

/// The first bullet from `k` on that is no deeper than `depth`; the number of
/// bullets where all are deeper.
pub open spec fn subtree_end(bs: Seq<BulletModel>, depth: u32, k: int) -> int
    decreases bs.len() - k,
{
    if k < 0 || k >= bs.len() || bs[k].depth <= depth {
        k
    } else {
        subtree_end(bs, depth, k + 1)
    }
}

pub proof fn lemma_subtree_end(bs: Seq<BulletModel>, depth: u32, k: int)
    requires
        0 <= k <= bs.len(),
    ensures
        k <= subtree_end(bs, depth, k) <= bs.len(),
        forall|j: int| k <= j < subtree_end(bs, depth, k) ==> (#[trigger] bs[j]).depth > depth,
        subtree_end(bs, depth, k) < bs.len() ==> bs[subtree_end(bs, depth, k)].depth <= depth,
    decreases bs.len() - k,
{
    if k < bs.len() && bs[k].depth > depth {
        lemma_subtree_end(bs, depth, k + 1);
    }
}

/// Bullet `j` is an ancestor of bullet `i`: `i` and all bullets between them are
/// deeper than `j`.
pub open spec fn ancestor(bs: Seq<BulletModel>, j: int, i: int) -> bool {
    &&& 0 <= j < i < bs.len()
    &&& forall|k: int| j < k <= i ==> (#[trigger] bs[k]).depth > bs[j].depth
}

/// Bullet `i` is open, and so are all its ancestors.
pub open spec fn effectively_open(bs: Seq<BulletModel>, i: int) -> bool {
    &&& bs[i].closed_at is None
    &&& forall|j: int| #[trigger] ancestor(bs, j, i) ==> bs[j].closed_at is None
}

/// The subtree of a bullet is the bullet and what it is an ancestor of.
pub proof fn subtree_holds_the_descendants(bs: Seq<BulletModel>, j: int, i: int)
    requires
        0 <= j < bs.len(),
    ensures
        j <= i < subtree_end(bs, bs[j].depth, j + 1) <==> i == j || ancestor(bs, j, i),
{
    let end = subtree_end(bs, bs[j].depth, j + 1);
    lemma_subtree_end(bs, bs[j].depth, j + 1);
    if ancestor(bs, j, i) && i >= end {
        assert(bs[end].depth > bs[j].depth);
    }
}

/// A closed bullet closes its whole subtree, whatever the bullets in it say of
/// themselves.
pub proof fn closing_a_bullet_closes_its_subtree(bs: Seq<BulletModel>, j: int, i: int)
    requires
        0 <= j < bs.len(),
        bs[j].closed_at is Some,
        j <= i < subtree_end(bs, bs[j].depth, j + 1),
    ensures
        !effectively_open(bs, i),
{
    subtree_holds_the_descendants(bs, j, i);
    if i != j {
        assert(ancestor(bs, j, i));
    }
}

/// A bullet whose ancestors are all open is as open as it says.
pub proof fn under_open_ancestors_a_bullet_is_as_open_as_it_says(bs: Seq<BulletModel>, i: int)
    requires
        0 <= i < bs.len(),
        forall|j: int| #[trigger] ancestor(bs, j, i) ==> effectively_open(bs, j),
    ensures
        effectively_open(bs, i) == (bs[i].closed_at is None),
{
}

/// Going back from `j`, a bullet of depth `depth` comes before any shallower
/// one.
pub open spec fn has_prev_sibling(bs: Seq<BulletModel>, depth: u32, j: int) -> bool
    decreases j,
{
    if j <= 0 || j > bs.len() {
        false
    } else if bs[j - 1].depth == depth {
        true
    } else if bs[j - 1].depth < depth {
        false
    } else {
        has_prev_sibling(bs, depth, j - 1)
    }
}

/// The bullets from `lo` to `hi` moved by `by` levels.
pub open spec fn shifted(bs: Seq<BulletModel>, lo: int, hi: int, by: int) -> Seq<BulletModel> {
    Seq::new(
        bs.len(),
        |i: int|
            if lo <= i < hi {
                bs[i].at_depth(bs[i].depth + by)
            } else {
                bs[i]
            },
    )
}

/// The bullets from `lo` to `hi` can be moved by `by` levels.
pub open spec fn shift_fits(bs: Seq<BulletModel>, lo: int, hi: int, by: int) -> bool {
    forall|i: int|
        lo <= i < hi && 0 <= i < bs.len() ==> 0 <= (#[trigger] bs[i]).depth + by <= u32::MAX
}

/// Indenting and outdenting the same bullets take each other back.
pub proof fn shifting_back_restores(bs: Seq<BulletModel>, lo: int, hi: int, by: int)
    requires
        shift_fits(bs, lo, hi, by),
    ensures
        shifted(shifted(bs, lo, hi, by), lo, hi, -by) == bs,
{
    let there = shifted(bs, lo, hi, by);
    let back = shifted(there, lo, hi, -by);
    assert forall|i: int| 0 <= i < bs.len() implies back[i] == bs[i] by {
        if lo <= i < hi {
            assert(0 <= bs[i].depth + by <= u32::MAX);
            assert(there[i].depth == bs[i].depth + by);
        }
    }
    assert(back =~= bs);
}

impl OutlineModel {
    /// There is always a bullet, and every bullet's text is well formed.
    pub open spec fn wf(self) -> bool {
        &&& self.bullets.len() > 0
        &&& bullets_wf(self.bullets)
    }

    /// Where the focused bullet is.
    pub open spec fn at(self) -> int {
        bullet_pos(self.bullets, self.focused, 0)
    }

    /// The focused bullet is there.
    pub open spec fn has_focus(self) -> bool {
        self.at() < self.bullets.len()
    }

    /// With other bullets.
    pub open spec fn listing(self, bullets: Seq<BulletModel>) -> OutlineModel {
        OutlineModel { bullets, ..self }
    }

    /// With bullet `i` saying something else.
    pub open spec fn saying(self, i: int, text: TextModel) -> OutlineModel {
        self.listing(self.bullets.update(i, self.bullets[i].saying(text)))
    }

    /// With the focus on another bullet.
    pub open spec fn focusing(self, id: Uuid) -> OutlineModel {
        OutlineModel { focused: id, ..self }
    }

    /// With other bullets selected.
    pub open spec fn selecting(self, selection: Option<BulletSelection>) -> OutlineModel {
        OutlineModel { selection, ..self }
    }

    /// With the caret of bullet `i` at `at`, and the focus on it.
    pub open spec fn caret_in(self, i: int, at: int) -> OutlineModel {
        self.saying(i, caret_put(self.bullets[i].text, at)).focusing(self.bullets[i].id)
    }

    /// The fresh outline with one empty bullet.
    pub open spec fn fresh(id: Uuid) -> OutlineModel {
        OutlineModel {
            bullets: seq![BulletModel::fresh(id, TextModel::fresh(Seq::empty()), 0)],
            focused: id,
            drag: None,
            selection: None,
            scale: DEFAULT_SCALE,
            filter: None,
            show_inactive: false,
        }
    }

    /// The first and last bullet of the selection, where both its ends are there.
    pub open spec fn selected(self) -> Option<(int, int)> {
        match self.selection {
            None => None,
            Some(s) => {
                let a = bullet_pos(self.bullets, s.anchor_id, 0);
                let h = bullet_pos(self.bullets, s.head_id, 0);
                if a >= self.bullets.len() || h >= self.bullets.len() {
                    None
                } else if a <= h {
                    Some((a, h))
                } else {
                    Some((h, a))
                }
            },
        }
    }
}

/// Every bullet's text is well formed.
pub open spec fn bullets_wf(bs: Seq<BulletModel>) -> bool {
    forall|i: int| 0 <= i < bs.len() ==> (#[trigger] bs[i]).text.wf()
}

/// A text box with its caret put at `at`.
pub open spec fn caret_put(m: TextModel, at: int) -> TextModel {
    m.selecting(SelectionSet::at(place_at(m.doc.text, at) as usize))
}

/// A text box at another zoom.
pub open spec fn zoomed(m: TextModel, scale: u32) -> TextModel {
    if m.doc.scale != scale {
        TextModel { doc: Doc { scale, ..m.doc }, ..m.unwrapped() }
    } else {
        m
    }
}

// ---------------------------------------------------------------------------
// Editing
// ---------------------------------------------------------------------------

/// A text box made of a text and links onto it.
pub open spec fn text_of(text: Seq<u8>, links: Seq<Link>, scale: u32) -> TextModel {
    zoomed(TextModel::fresh(Seq::empty()).appended(text, links), scale)
}

/// What a step makes of an outline, whether it did anything, and whether it can
/// be taken: whether every edit it makes finds its place and fits the machine.
#[verifier::ext_equal]
pub struct Step {
    pub m: OutlineModel,
    pub done: bool,
    pub fits: bool,
}

impl OutlineModel {
    /// The focused bullet split at its caret: what is behind the caret becomes a
    /// bullet of its own, which gets the focus. A selection is deleted first.
    pub open spec fn split(self, id: Uuid, now: u64) -> Step {
        if !self.has_focus() {
            Step { m: self, done: false, fits: true }
        } else {
            let i = self.at();
            let b = self.bullets[i];
            let fits = b.text.has_selection() ==> b.text.can_apply(
                b.text.edits(replacing(Seq::empty())),
            );
            let t = b.text.selection_deleted(now);
            match primary_ends(t) {
                None => Step { m: self.saying(i, t), done: false, fits },
                Some((_, head)) => {
                    let text = t.doc.text;
                    let front = t.linking(t.links_before(head as int)).replaced_text(
                        text.subrange(0, head as int),
                        now,
                    );
                    let back = text_of(
                        text.subrange(head as int, text.len() as int),
                        t.links_after(head as int),
                        t.doc.scale,
                    );
                    Step {
                        m: self.listing(
                            self.bullets.update(
                                i,
                                b.saying(caret_put(front, head as int)),
                            ).insert(
                                i + 1,
                                BulletModel::fresh(id, caret_put(back, 0), b.depth),
                            ),
                        ).focusing(id),
                        done: true,
                        fits,
                    }
                },
            }
        }
    }

    /// The focused bullet and its subtree one level deeper, where a sibling is in
    /// front of it.
    pub open spec fn indented(self) -> Step {
        let i = self.at();
        if !self.has_focus() || !has_prev_sibling(self.bullets, self.bullets[i].depth, i) {
            Step { m: self, done: false, fits: true }
        } else {
            let end = subtree_end(self.bullets, self.bullets[i].depth, i + 1);
            Step {
                m: self.listing(shifted(self.bullets, i, end, 1)),
                done: true,
                fits: shift_fits(self.bullets, i, end, 1),
            }
        }
    }

    /// The focused bullet and its subtree one level up, where it is not at the
    /// top.
    pub open spec fn outdented(self) -> Step {
        let i = self.at();
        if !self.has_focus() || self.bullets[i].depth == 0 {
            Step { m: self, done: false, fits: true }
        } else {
            let end = subtree_end(self.bullets, self.bullets[i].depth, i + 1);
            Step {
                m: self.listing(shifted(self.bullets, i, end, -1)),
                done: true,
                fits: true,
            }
        }
    }

    /// The bullets selected, and the subtree of the last of them, one level
    /// deeper, where the first has a sibling in front of it.
    pub open spec fn selection_indented(self) -> Step {
        match self.selected() {
            Some((lo, hi)) if has_prev_sibling(self.bullets, self.bullets[lo].depth, lo) => {
                let end = subtree_end(self.bullets, self.bullets[hi].depth, hi + 1);
                Step {
                    m: self.listing(shifted(self.bullets, lo, end, 1)),
                    done: true,
                    fits: shift_fits(self.bullets, lo, end, 1),
                }
            },
            _ => Step { m: self, done: false, fits: true },
        }
    }

    /// One of the bullets from `lo` to `hi` is at the top.
    pub open spec fn any_at_top(self, lo: int, hi: int) -> bool {
        exists|i: int| lo <= i <= hi && (#[trigger] self.bullets[i]).depth == 0
    }

    /// The bullets selected, and the subtree of the last of them, one level up,
    /// where none of them is at the top.
    pub open spec fn selection_outdented(self) -> Step {
        match self.selected() {
            Some((lo, hi)) if !self.any_at_top(lo, hi) => {
                let end = subtree_end(self.bullets, self.bullets[hi].depth, hi + 1);
                Step {
                    m: self.listing(shifted(self.bullets, lo, end, -1)),
                    done: true,
                    fits: true,
                }
            },
            _ => Step { m: self, done: false, fits: true },
        }
    }

    /// The selected bullets deleted. Children that lost their parent move up to
    /// where they still have one; the caret goes to the end of the bullet in
    /// front of the gap, or to the start of the first. An outline is never left
    /// without a bullet.
    pub open spec fn selection_deleted(self, id: Uuid) -> Step {
        let m = self.selecting(None);
        match self.selected() {
            None => Step { m, done: false, fits: true },
            Some((lo, hi)) => {
                let rest = self.bullets.subrange(0, lo) + self.bullets.subrange(
                    hi + 1,
                    self.bullets.len() as int,
                );
                if rest.len() == 0 {
                    let b = BulletModel::fresh(
                        id,
                        zoomed(TextModel::fresh(Seq::empty()), self.scale),
                        0,
                    );
                    Step { m: m.listing(seq![b]).focusing(id), done: true, fits: true }
                } else {
                    let adopted = m.listing(readopted(rest, lo));
                    Step {
                        m: if lo > 0 {
                            adopted.caret_in(lo - 1, rest[lo - 1].text.doc.text.len() as int)
                        } else {
                            adopted.caret_in(0, 0)
                        },
                        done: true,
                        fits: true,
                    }
                }
            },
        }
    }

    /// The selection's end moved to the bullet in front of it or behind it.
    pub open spec fn selection_extended(self, down: bool) -> Step {
        match self.selection {
            Some(s) => {
                let h = bullet_pos(self.bullets, s.head_id, 0);
                let to = if down {
                    h + 1
                } else {
                    h - 1
                };
                if h >= self.bullets.len() || to < 0 || to >= self.bullets.len() {
                    Step { m: self, done: false, fits: true }
                } else {
                    let head_id = self.bullets[to].id;
                    Step {
                        m: self.selecting(
                            Some(BulletSelection { head_id, ..s }),
                        ).focusing(head_id),
                        done: true,
                        fits: true,
                    }
                }
            },
            None => Step { m: self, done: false, fits: true },
        }
    }

    /// The focused bullet and its neighbour selected.
    pub open spec fn selection_begun(self, down: bool) -> Step {
        let i = self.at();
        let to = if down {
            i + 1
        } else {
            i - 1
        };
        if !self.has_focus() || to < 0 || to >= self.bullets.len() {
            Step { m: self, done: false, fits: true }
        } else {
            let head_id = self.bullets[to].id;
            Step {
                m: self.selecting(
                    Some(BulletSelection { anchor_id: self.bullets[i].id, head_id }),
                ).focusing(head_id),
                done: true,
                fits: true,
            }
        }
    }

    /// The focused bullet, where it has no children, joined onto the bullet in
    /// front of it.
    pub open spec fn merged_up(self) -> Step {
        let i = self.at();
        if !self.has_focus() || i == 0 || (i + 1 < self.bullets.len() && self.bullets[i + 1].depth
            > self.bullets[i].depth) {
            Step { m: self, done: false, fits: true }
        } else {
            let prev = self.bullets[i - 1];
            let own = self.bullets[i].text.doc;
            let n = prev.text.doc.text.len() as int;
            Step {
                m: self.listing(
                    self.bullets.remove(i).update(
                        i - 1,
                        prev.saying(caret_put(prev.text.appended(own.text, own.links), n)),
                    ),
                ).focusing(prev.id),
                done: true,
                fits: n + own.text.len() <= usize::MAX && links_room(own.links, n),
            }
        }
    }

    /// The caret moved to the end of the bullet in front or the start of the
    /// bullet behind.
    pub open spec fn spilled(self, down: bool) -> Step {
        let i = self.at();
        let to = if down {
            i + 1
        } else {
            i - 1
        };
        if !self.has_focus() || to < 0 || to >= self.bullets.len() {
            Step { m: self, done: false, fits: true }
        } else {
            Step {
                m: self.caret_in(
                    to,
                    if down {
                        0
                    } else {
                        self.bullets[to].text.doc.text.len() as int
                    },
                ),
                done: true,
                fits: true,
            }
        }
    }
}

/// `rest`, the bullets around a gap at `lo`, with those behind the gap that are
/// too deep to have a parent moved up until they have one.
pub open spec fn readopted(rest: Seq<BulletModel>, lo: int) -> Seq<BulletModel> {
    if lo >= rest.len() {
        rest
    } else {
        let front = rest[lo].depth;
        let allowed: int = if lo == 0 {
            0
        } else {
            rest[lo - 1].depth + 1
        };
        if front > allowed {
            shifted(rest, lo, deep_run_end(rest, front, lo), allowed - front)
        } else {
            rest
        }
    }
}

/// The first bullet from `k` on that is shallower than `depth`.
pub open spec fn deep_run_end(bs: Seq<BulletModel>, depth: u32, k: int) -> int
    decreases bs.len() - k,
{
    if k < 0 || k >= bs.len() || bs[k].depth < depth {
        k
    } else {
        deep_run_end(bs, depth, k + 1)
    }
}

pub proof fn lemma_deep_run_end(bs: Seq<BulletModel>, depth: u32, k: int)
    requires
        0 <= k <= bs.len(),
    ensures
        k <= deep_run_end(bs, depth, k) <= bs.len(),
        forall|j: int| k <= j < deep_run_end(bs, depth, k) ==> (#[trigger] bs[j]).depth >= depth,
    decreases bs.len() - k,
{
    if k < bs.len() && bs[k].depth >= depth {
        lemma_deep_run_end(bs, depth, k + 1);
    }
}

/// Deleting bullets never leaves the bullet behind the gap too deep to have a
/// parent.
pub proof fn deleting_orphans_no_bullet(rest: Seq<BulletModel>, lo: int)
    requires
        0 <= lo < rest.len(),
    ensures
        lo == 0 ==> readopted(rest, lo)[lo].depth == 0,
        lo > 0 ==> readopted(rest, lo)[lo].depth <= readopted(rest, lo)[lo - 1].depth + 1,
{
    lemma_deep_run_end(rest, rest[lo].depth, lo);
    assert(deep_run_end(rest, rest[lo].depth, lo) > lo) by {
        reveal_with_fuel(deep_run_end, 2);
        lemma_deep_run_end(rest, rest[lo].depth, lo + 1);
    }
}

// ---------------------------------------------------------------------------
// Keys
// ---------------------------------------------------------------------------

/// A key that types something over selected bullets: one without the primary
/// modifier whose text holds a character that is no control character.
pub open spec fn types_over(ev: KeyEvent, mods: Modifiers) -> bool {
    !primary_mod(mods) && (ev.text matches Some(s) && exists|i: int|
        0 <= i < s@.len() && !control(#[trigger] s@[i]))
}

/// Enter without a modifier.
pub open spec fn plain_enter(mods: Modifiers) -> bool {
    !primary_mod(mods) && !mods.alt && !mods.shift
}

impl OutlineModel {
    /// A key event handed to the text of the focused bullet.
    pub open spec fn typed(self, ev: KeyEvent, mods: Modifiers, now: u64) -> Step {
        if !self.has_focus() {
            Step { m: self, done: false, fits: true }
        } else {
            let i = self.at();
            let t = self.bullets[i].text;
            let r = after_key(t, ev, mods, now);
            Step {
                m: self.saying(i, r.0),
                done: r.1,
                fits: t.can_apply(key_edits(t, ev, mods)),
            }
        }
    }

    /// `next`, taken after `first`.
    pub open spec fn chained(first: Step, next: Step) -> Step {
        Step { fits: first.fits && next.fits, ..next }
    }

    /// What a pressed key does while whole bullets are selected.
    pub open spec fn key_on_selection(
        self,
        ev: KeyEvent,
        mods: Modifiers,
        ids: (Uuid, Uuid),
        now: u64,
    ) -> Step {
        let deleted = self.selection_deleted(ids.0);
        match ev.key {
            Key::Backspace | Key::Delete => deleted,
            Key::Tab => if mods.shift {
                self.selection_outdented()
            } else {
                self.selection_indented()
            },
            Key::ArrowUp if mods.shift => self.selection_extended(false),
            Key::ArrowDown if mods.shift => self.selection_extended(true),
            Key::Enter if plain_enter(mods) => OutlineModel::chained(
                deleted,
                deleted.m.split(ids.1, now),
            ),
            Key::Modifier => Step { m: self, done: false, fits: true },
            _ => if types_over(ev, mods) {
                Step {
                    done: true,
                    ..OutlineModel::chained(deleted, deleted.m.typed(ev, mods, now))
                }
            } else {
                Step { m: self.selecting(None), done: true, fits: true }
            },
        }
    }

    /// The caret of the focused bullet is at the start of its text, nothing
    /// selected.
    pub open spec fn at_text_start(self) -> bool {
        self.has_focus() && primary_ends(self.bullets[self.at()].text) == Some((0usize, 0usize))
    }

    /// The caret of the focused bullet is on its first visual line.
    pub open spec fn at_first_line(self) -> bool {
        self.has_focus() && primary_line(self.bullets[self.at()].text) == 0
    }

    /// The caret of the focused bullet is on its last visual line.
    pub open spec fn at_last_line(self) -> bool {
        self.has_focus() && primary_line(self.bullets[self.at()].text) + 1 >= line_count(
            self.bullets[self.at()].text,
        )
    }

    /// What a key event makes of an outline, `ids` being the identities of
    /// bullets that it may add.
    pub open spec fn after_key(
        self,
        ev: KeyEvent,
        mods: Modifiers,
        ids: (Uuid, Uuid),
        now: u64,
    ) -> Step {
        if ev.pressed && self.selection is Some {
            self.key_on_selection(ev, mods, ids, now)
        } else if !ev.pressed {
            self.typed(ev, mods, now)
        } else {
            match ev.key {
                Key::Enter if plain_enter(mods) => self.split(ids.0, now),
                Key::Tab => if mods.shift {
                    self.outdented()
                } else {
                    self.indented()
                },
                Key::Backspace if !primary_mod(mods) && !word_mod(mods) && self.at_text_start()
                    => self.merged_up(),
                Key::ArrowUp => {
                    let crossing = if mods.shift {
                        self.selection_begun(false)
                    } else {
                        self.spilled(false)
                    };
                    if self.at_first_line() && crossing.done {
                        crossing
                    } else {
                        self.typed(ev, mods, now)
                    }
                },
                Key::ArrowDown => {
                    let crossing = if mods.shift {
                        self.selection_begun(true)
                    } else {
                        self.spilled(true)
                    };
                    if self.at_last_line() && crossing.done {
                        crossing
                    } else {
                        self.typed(ev, mods, now)
                    }
                },
                _ => self.typed(ev, mods, now),
            }
        }
    }
}

proof fn lemma_focus(m: OutlineModel, i: int)
    requires
        0 <= i < m.bullets.len(),
        m.bullets[i].id == m.focused,
    ensures
        m.has_focus(),
{
    lemma_bullet_pos(m.bullets, m.focused, 0);
}

proof fn lemma_same_ids(m: OutlineModel, n: OutlineModel)
    requires
        m.has_focus(),
        n.focused == m.focused,
        n.bullets.len() == m.bullets.len(),
        forall|i: int| 0 <= i < m.bullets.len() ==> (#[trigger] n.bullets[i]).id == m.bullets[i].id,
    ensures
        n.has_focus(),
{
    lemma_bullet_pos(m.bullets, m.focused, 0);
    lemma_focus(n, m.at());
}

proof fn lemma_typing_keeps_focus(m: OutlineModel, ev: KeyEvent, mods: Modifiers, now: u64)
    requires
        m.has_focus(),
    ensures
        m.typed(ev, mods, now).m.has_focus(),
{
    lemma_bullet_pos(m.bullets, m.focused, 0);
    lemma_same_ids(m, m.typed(ev, mods, now).m);
}

proof fn lemma_splitting_keeps_focus(m: OutlineModel, id: Uuid, now: u64)
    requires
        m.has_focus(),
    ensures
        m.split(id, now).m.has_focus(),
{
    let n = m.split(id, now).m;
    let i = m.at();
    lemma_bullet_pos(m.bullets, m.focused, 0);
    let t = m.bullets[i].text.selection_deleted(now);
    match primary_ends(t) {
        None => {
            lemma_same_ids(m, n);
        },
        Some(_) => {
            assert(n.bullets[i + 1].id == id);
            lemma_focus(n, i + 1);
        },
    }
}

proof fn lemma_deleting_keeps_focus(m: OutlineModel, id: Uuid)
    requires
        m.has_focus(),
    ensures
        m.selection_deleted(id).m.has_focus(),
        m.selection_deleted(id).m.bullets.len() > 0,
{
    let n = m.selection_deleted(id).m;
    match m.selected() {
        None => {
            lemma_same_ids(m, n);
        },
        Some((lo, hi)) => {
            let s = m.selection.unwrap();
            lemma_bullet_pos(m.bullets, s.anchor_id, 0);
            lemma_bullet_pos(m.bullets, s.head_id, 0);
            lemma_bullet_pos(m.bullets, m.focused, 0);
            let rest = m.bullets.subrange(0, lo) + m.bullets.subrange(
                hi + 1,
                m.bullets.len() as int,
            );
            if rest.len() == 0 {
                lemma_focus(n, 0);
            } else if lo > 0 {
                lemma_focus(n, lo - 1);
            } else {
                lemma_focus(n, 0);
            }
        },
    }
}

proof fn lemma_selection_keys_keep_focus(
    m: OutlineModel,
    ev: KeyEvent,
    mods: Modifiers,
    ids: (Uuid, Uuid),
    now: u64,
)
    requires
        m.has_focus(),
    ensures
        m.key_on_selection(ev, mods, ids, now).m.has_focus(),
{
    let n = m.key_on_selection(ev, mods, ids, now).m;
    let deleted = m.selection_deleted(ids.0).m;
    lemma_deleting_keeps_focus(m, ids.0);
    lemma_typing_keeps_focus(deleted, ev, mods, now);
    lemma_splitting_keeps_focus(deleted, ids.1, now);
    lemma_same_ids(m, m.selection_indented().m);
    lemma_same_ids(m, m.selection_outdented().m);
    lemma_same_ids(m, m.selecting(None));
    if let Some(s) = m.selection {
        let h = bullet_pos(m.bullets, s.head_id, 0);
        lemma_bullet_pos(m.bullets, s.head_id, 0);
        if m.selection_extended(true).done {
            lemma_focus(m.selection_extended(true).m, h + 1);
        }
        if m.selection_extended(false).done {
            lemma_focus(m.selection_extended(false).m, h - 1);
        }
    }
}

/// A key leaves the focus of an outline on one of its bullets, and never leaves it
/// without a bullet.
pub proof fn keys_keep_the_focus_on_a_bullet(
    m: OutlineModel,
    ev: KeyEvent,
    mods: Modifiers,
    ids: (Uuid, Uuid),
    now: u64,
)
    requires
        m.wf(),
        m.has_focus(),
    ensures
        m.after_key(ev, mods, ids, now).m.has_focus(),
        m.after_key(ev, mods, ids, now).m.bullets.len() > 0,
{
    let i = m.at();
    let n = m.after_key(ev, mods, ids, now).m;
    lemma_bullet_pos(m.bullets, m.focused, 0);
    lemma_selection_keys_keep_focus(m, ev, mods, ids, now);
    lemma_typing_keeps_focus(m, ev, mods, now);
    lemma_splitting_keeps_focus(m, ids.0, now);
    lemma_same_ids(m, m.indented().m);
    lemma_same_ids(m, m.outdented().m);
    if m.merged_up().done {
        lemma_focus(m.merged_up().m, i - 1);
    }
    if i + 1 < m.bullets.len() {
        lemma_focus(m.selection_begun(true).m, i + 1);
        lemma_focus(m.spilled(true).m, i + 1);
    }
    if i > 0 {
        lemma_focus(m.selection_begun(false).m, i - 1);
        lemma_focus(m.spilled(false).m, i - 1);
    }
    lemma_bullet_pos(n.bullets, n.focused, 0);
}

// ---------------------------------------------------------------------------
// The mouse
// ---------------------------------------------------------------------------

/// Every bullet but the one at `but` with its selections collapsed.
pub open spec fn texts_collapsed(bs: Seq<BulletModel>, but: int) -> Seq<BulletModel> {
    Seq::new(
        bs.len(),
        |i: int|
            if i == but {
                bs[i]
            } else {
                bs[i].saying(collapsed(bs[i].text))
            },
    )
}

impl OutlineModel {
    /// A press of the mouse button on the embedded preview.
    pub open spec fn pressed_in_header(self) -> OutlineModel {
        OutlineModel {
            bullets: texts_collapsed(self.bullets, -1),
            selection: None,
            drag: Some(OutlineDrag { origin_id: 0, mode: DragMode::Header }),
            ..self
        }
    }

    /// A press of the mouse button on bullet `i`: it gets the focus, and no other
    /// bullet keeps a selection.
    pub open spec fn pressed_in_bullet(
        self,
        i: int,
        click: Click,
        mods: Modifiers,
        editing: bool,
    ) -> OutlineModel {
        let id = self.bullets[i].id;
        let m = OutlineModel {
            bullets: texts_collapsed(self.bullets, i),
            selection: None,
            focused: id,
            drag: Some(OutlineDrag { origin_id: id, mode: DragMode::TextBox }),
            ..self
        };
        m.saying(i, after_mouse_down(self.bullets[i].text, click, mods, editing))
    }

    /// A drag to bullet `i`, at `idx` of its text: within the bullet it started in
    /// it extends the text selection, beyond that it selects whole bullets.
    pub open spec fn dragged(self, i: int, idx: usize, affinity: Affinity) -> OutlineModel {
        match self.drag {
            None => self,
            Some(d) => match d.mode {
                DragMode::Header => self,
                DragMode::BulletRange { .. } => OutlineModel {
                    drag: Some(
                        OutlineDrag {
                            mode: DragMode::BulletRange { head_id: self.bullets[i].id },
                            ..d
                        },
                    ),
                    ..self
                },
                DragMode::TextBox => {
                    let o = bullet_pos(self.bullets, d.origin_id, 0);
                    if self.bullets[i].id != d.origin_id {
                        let m = if o < self.bullets.len() {
                            self.saying(o, after_mouse_up(self.bullets[o].text))
                        } else {
                            self
                        };
                        OutlineModel {
                            drag: Some(
                                OutlineDrag {
                                    mode: DragMode::BulletRange { head_id: self.bullets[i].id },
                                    ..d
                                },
                            ),
                            ..m
                        }
                    } else {
                        self.saying(o, after_drag(self.bullets[o].text, idx, affinity))
                    }
                },
            },
        }
    }

    /// A drag to bullet `i` at `idx` of its text can be followed.
    pub open spec fn drag_fits(self, i: int, idx: usize) -> bool {
        match self.drag {
            Some(d) if d.mode == DragMode::TextBox && self.bullets[i].id == d.origin_id => {
                let t = self.bullets[bullet_pos(self.bullets, d.origin_id, 0)].text;
                drag_fits(t) && boundary(t.doc.text, idx as int)
            },
            _ => true,
        }
    }

    /// The drag ended.
    pub open spec fn released(self) -> OutlineModel {
        let m = OutlineModel { drag: None, ..self };
        match self.drag {
            None => self,
            Some(d) => match d.mode {
                DragMode::Header => m,
                DragMode::BulletRange { head_id } => m.selecting(
                    Some(BulletSelection { anchor_id: d.origin_id, head_id }),
                ).focusing(head_id),
                DragMode::TextBox => {
                    let o = bullet_pos(self.bullets, d.origin_id, 0);
                    if o < self.bullets.len() {
                        m.saying(o, after_mouse_up(self.bullets[o].text))
                    } else {
                        m
                    }
                },
            },
        }
    }

    /// The end of a drag changes something that the host has to show.
    pub open spec fn release_shows(self) -> bool {
        self.drag matches Some(d) && match d.mode {
            DragMode::Header => false,
            DragMode::BulletRange { .. } => true,
            DragMode::TextBox => {
                let o = bullet_pos(self.bullets, d.origin_id, 0);
                o < self.bullets.len() && self.bullets[o].text.drag is Some
            },
        }
    }

    /// No selection left, of bullets or in them.
    pub open spec fn all_collapsed(self) -> OutlineModel {
        self.selecting(None).listing(texts_collapsed(self.bullets, -1))
    }

    /// Bullet `i` is shown by the current view.
    pub open spec fn shown(self, i: int) -> bool {
        self.filter matches Some(set) ==> set.contains(self.bullets[i].id)
    }
}

/// The first bullet from `k` on that is shown and that the pointer is in.
pub open spec fn shown_from(m: OutlineModel, inside: spec_fn(int) -> bool, k: int) -> int
    decreases m.bullets.len() - k,
{
    if k < 0 || k >= m.bullets.len() {
        m.bullets.len() as int
    } else if m.shown(k) && inside(k) {
        k
    } else {
        shown_from(m, inside, k + 1)
    }
}

/// The last bullet in front of `k` that is shown; -1 where there is none.
pub open spec fn shown_before(m: OutlineModel, k: int) -> int
    decreases k,
{
    if k <= 0 || k > m.bullets.len() {
        -1
    } else if m.shown(k - 1) {
        k - 1
    } else {
        shown_before(m, k - 1)
    }
}

/// The bullet that a pointer belongs to: the shown one it is in, else the first
/// shown where it is above the outline, else the last shown.
pub open spec fn bullet_hit(m: OutlineModel, inside: spec_fn(int) -> bool, above: bool) -> int {
    let n = m.bullets.len() as int;
    let at = shown_from(m, inside, 0);
    let first = shown_from(m, |i: int| true, 0);
    let last = shown_before(m, n);
    if at < n {
        at
    } else if above {
        if first < n {
            first
        } else {
            0
        }
    } else if last >= 0 {
        last
    } else if n > 0 {
        n - 1
    } else {
        0
    }
}

// ---------------------------------------------------------------------------
// Drawing
// ---------------------------------------------------------------------------

/// How a bullet is drawn.
#[verifier::ext_equal]
pub struct RowModel {
    pub visible: bool,
    /// How far it is indented.
    pub indent: int,
    pub dimmed: bool,
    pub highlighted: bool,
    pub focused: bool,
    pub caret: bool,
}

/// The least depth of the shown bullets from `k` on; `u32::MAX` where there is
/// none.
pub open spec fn least_shown_depth(m: OutlineModel, k: int) -> u32
    decreases m.bullets.len() - k,
{
    if k < 0 || k >= m.bullets.len() {
        u32::MAX
    } else {
        let rest = least_shown_depth(m, k + 1);
        if m.shown(k) && m.bullets[k].depth < rest {
            m.bullets[k].depth
        } else {
            rest
        }
    }
}

impl OutlineModel {
    /// The bullets that are highlighted: those a drag runs over, else those
    /// selected.
    pub open spec fn active(self) -> Option<(int, int)> {
        let over = match self.drag {
            Some(d) => match d.mode {
                DragMode::BulletRange { head_id } => Some(
                    BulletSelection { anchor_id: d.origin_id, head_id },
                ),
                _ => self.selection,
            },
            None => self.selection,
        };
        self.selecting(over).selected()
    }

    /// How bullet `i` is drawn.
    pub open spec fn row(self, i: int, focused: bool, show_caret: bool) -> RowModel {
        let b = self.bullets[i];
        let open = effectively_open(self.bullets, i);
        let own = b.id == self.focused && self.active() is None;
        let least = if self.filter is Some && shown_from(self, |i: int| true, 0)
            < self.bullets.len() {
            least_shown_depth(self, 0)
        } else {
            0
        };
        RowModel {
            visible: self.shown(i) && (open || self.show_inactive),
            indent: if b.depth > least {
                b.depth - least
            } else {
                0
            },
            dimmed: !open,
            highlighted: focused && (self.active() matches Some((lo, hi)) && lo <= i <= hi),
            focused: focused && own,
            caret: show_caret && own,
        }
    }
}

// ---------------------------------------------------------------------------
// Selecting, copying, pasting
// ---------------------------------------------------------------------------

/// `unit` written `n` times.
pub open spec fn repeated(unit: Seq<u8>, n: int) -> Seq<u8>
    decreases n,
{
    if n <= 0 {
        Seq::empty()
    } else {
        repeated(unit, n - 1) + unit
    }
}

/// Bullets `lo` to `hi`, one to a line, each indented by its depth.
pub open spec fn lines_joined(bs: Seq<BulletModel>, unit: Seq<u8>, lo: int, hi: int) -> Seq<u8>
    decreases hi - lo,
{
    if hi <= lo {
        Seq::empty()
    } else {
        let own = repeated(unit, bs[hi - 1].depth as int) + bs[hi - 1].text.doc.text;
        if hi - 1 == lo {
            own
        } else {
            lines_joined(bs, unit, lo, hi - 1) + seq![10u8] + own
        }
    }
}

/// Four spaces.
pub open spec fn four_spaces() -> Seq<u8> {
    seq![32u8, 32, 32, 32]
}

/// Two spaces.
pub open spec fn two_spaces() -> Seq<u8> {
    seq![32u8, 32]
}

impl OutlineModel {
    /// What copying gives: the selected bullets, one to a line, else what is
    /// selected in the focused bullet.
    pub open spec fn copied(self) -> Seq<u8> {
        if self.selection is Some {
            match self.selected() {
                Some((lo, hi)) => lines_joined(self.bullets, four_spaces(), lo, hi + 1),
                None => Seq::empty(),
            }
        } else if self.has_focus() {
            self.bullets[self.at()].text.primary_text()
        } else {
            Seq::empty()
        }
    }

    /// What copying gave, taken out.
    pub open spec fn cut(self, id: Uuid, now: u64) -> Step {
        if self.selection is Some {
            self.selection_deleted(id)
        } else if self.has_focus() {
            let i = self.at();
            Step {
                m: self.saying(i, self.bullets[i].text.cut(now)),
                done: true,
                fits: self.bullets[i].text.doc.room(0),
            }
        } else {
            Step { m: self, done: false, fits: true }
        }
    }

    /// A text pasted into the focused bullet, in place of selected bullets.
    pub open spec fn pasted(self, s: Seq<u8>, links: Seq<Link>, id: Uuid, now: u64) -> Step {
        let first = if self.selection is Some {
            self.selection_deleted(id)
        } else {
            Step { m: self, done: false, fits: true }
        };
        let m = first.m;
        if m.has_focus() {
            let i = m.at();
            let t = m.bullets[i].text;
            Step {
                m: m.saying(i, t.pasted(s, links, now)),
                done: true,
                fits: first.fits && t.can_apply(t.edits(replacing(s))),
            }
        } else {
            first
        }
    }

    /// Bullet `i` says everything selected.
    pub open spec fn text_fully_selected(self, i: int) -> bool {
        let t = self.bullets[i].text;
        &&& t.doc.text.len() > 0
        &&& primary_ends(t) matches Some((a, h)) && (if a < h {
            a == 0 && h == t.doc.text.len()
        } else {
            h == 0 && a == t.doc.text.len()
        })
    }

    /// Select all: the text of the focused bullet; where that is selected already
    /// or there is none, or bullets are selected, every bullet.
    pub open spec fn everything_selected(self) -> OutlineModel {
        let n = self.bullets.len() as int;
        if self.selected() == Some((0int, n - 1)) {
            self
        } else if self.selection is None && !self.has_focus() {
            self
        } else if self.selection is Some || self.text_fully_selected(self.at())
            || self.bullets[self.at()].text.doc.text.len() == 0 {
            self.listing(texts_collapsed(self.bullets, -1)).selecting(
                Some(
                    BulletSelection {
                        anchor_id: self.bullets[0].id,
                        head_id: self.bullets[n - 1].id,
                    },
                ),
            )
        } else {
            self.saying(self.at(), all_selected(self.bullets[self.at()].text))
        }
    }
}

/// A bullet on its way through the clipboard: depth, text and links.
#[verifier::ext_equal]
pub struct ItemModel {
    pub depth: u32,
    pub text: Seq<u8>,
    pub links: Seq<Link>,
}

/// The least depth of the first `n` of `items`.
pub open spec fn least_depth(items: Seq<ItemModel>, n: int) -> u32
    decreases n,
{
    if n <= 0 || n > items.len() {
        u32::MAX
    } else {
        let rest = least_depth(items, n - 1);
        if items[n - 1].depth < rest {
            items[n - 1].depth
        } else {
            rest
        }
    }
}

pub proof fn lemma_least_depth(items: Seq<ItemModel>, n: int)
    requires
        0 <= n <= items.len(),
    ensures
        forall|i: int| 0 <= i < n ==> (#[trigger] items[i]).depth >= least_depth(items, n),
    decreases n,
{
    if n > 0 {
        lemma_least_depth(items, n - 1);
    }
}

impl OutlineModel {
    /// The selected bullets, the shallowest at depth 0.
    pub open spec fn copied_items(self) -> Option<Seq<ItemModel>> {
        match self.selected() {
            Some((lo, hi)) => {
                let raw = Seq::new(
                    (hi + 1 - lo) as nat,
                    |k: int|
                        ItemModel {
                            depth: self.bullets[lo + k].depth,
                            text: self.bullets[lo + k].text.doc.text,
                            links: self.bullets[lo + k].text.doc.links,
                        },
                );
                Some(rebased(raw))
            },
            None => None,
        }
    }

    /// `items` as bullets of their own behind the focused bullet, the shallowest
    /// at its depth, in place of selected bullets. The first of them gets the
    /// focus.
    pub open spec fn with_items(self, items: Seq<ItemModel>, id: Uuid, ids: Seq<Uuid>) -> Step {
        let first = if self.selection is Some {
            self.selection_deleted(id)
        } else {
            Step { m: self, done: false, fits: true }
        };
        let m = first.m;
        if items.len() == 0 {
            Step { m: self, done: false, fits: true }
        } else if !m.has_focus() {
            first
        } else {
            let i = m.at();
            let base = m.bullets[i].depth;
            let least = least_depth(items, items.len() as int);
            let added = Seq::new(
                items.len(),
                |k: int|
                    BulletModel::fresh(
                        ids[k],
                        caret_put(
                            text_of(items[k].text, items[k].links, self.scale),
                            items[k].text.len() as int,
                        ),
                        (base + items[k].depth - least) as u32,
                    ),
            );
            Step {
                m: m.listing(
                    m.bullets.subrange(0, i + 1) + added + m.bullets.subrange(
                        i + 1,
                        m.bullets.len() as int,
                    ),
                ).focusing(ids[0]),
                done: true,
                fits: first.fits && forall|k: int|
                    0 <= k < items.len() ==> base + (#[trigger] items[k]).depth - least
                        <= u32::MAX,
            }
        }
    }
}

/// `items` with the shallowest at depth 0.
pub open spec fn rebased(items: Seq<ItemModel>) -> Seq<ItemModel> {
    Seq::new(
        items.len(),
        |k: int|
            ItemModel {
                depth: (items[k].depth - least_depth(items, items.len() as int)) as u32,
                ..items[k]
            },
    )
}

// ---------------------------------------------------------------------------
// Tags
// ---------------------------------------------------------------------------

/// Bullet text `b` spells a tag, in any case, that is among `tags`.
pub open spec fn spells_any(b: Seq<u8>, tags: Seq<Seq<u8>>) -> bool {
    exists|k: int, j: int|
        #![trigger inline_tags(b, b.len() as int)[k], tags[j]]
        0 <= k < inline_tags(b, b.len() as int).len() && 0 <= j < tags.len() && spells(
            b,
            inline_tags(b, b.len() as int)[k],
            tags[j],
        )
}

/// The tag at `s` is `tag`, in any case.
pub open spec fn spells(b: Seq<u8>, s: Span, tag: Seq<u8>) -> bool {
    s.end > s.start + 1 && folded(b.subrange(s.start + 1, s.end)) == folded(tag)
}

/// The bullets that spell one of `tags`, and their subtrees.
pub open spec fn tagged(bs: Seq<BulletModel>, tags: Seq<Seq<u8>>, id: Uuid) -> bool {
    exists|j: int, i: int|
        #![trigger bs[j], bs[i]]
        0 <= j < bs.len() && j <= i < subtree_end(bs, bs[j].depth, j + 1) && bs[i].id == id
            && spells_any(bs[j].text.doc.text, tags)
}

// ---------------------------------------------------------------------------
// All texts of an outline
// ---------------------------------------------------------------------------

/// Every bullet with its text mapped by `f`.
pub open spec fn texts_mapped(
    bs: Seq<BulletModel>,
    f: spec_fn(TextModel) -> TextModel,
) -> Seq<BulletModel> {
    Seq::new(bs.len(), |i: int| bs[i].saying(f(bs[i].text)))
}

/// The texts of the bullets.
pub open spec fn texts(bs: Seq<BulletModel>) -> Seq<TextModel> {
    Seq::new(bs.len(), |i: int| bs[i].text)
}

impl OutlineModel {
    /// At another zoom.
    pub open spec fn zoomed(self, scale: u32) -> OutlineModel {
        OutlineModel {
            scale,
            bullets: texts_mapped(self.bullets, |t: TextModel| zoomed(t, scale)),
            ..self
        }
    }

    /// The address that is to be followed next: that of the first bullet that has
    /// one.
    pub open spec fn pending_at(self, k: int) -> int
        decreases self.bullets.len() - k,
    {
        if k < 0 || k >= self.bullets.len() {
            self.bullets.len() as int
        } else if self.bullets[k].text.pending_url is Some {
            k
        } else {
            self.pending_at(k + 1)
        }
    }

    /// The text of bullet `id` replaced by `f`, where there is such a bullet.
    pub open spec fn saying_in(
        self,
        id: Uuid,
        f: spec_fn(TextModel) -> TextModel,
    ) -> OutlineModel {
        let i = bullet_pos(self.bullets, id, 0);
        if i < self.bullets.len() {
            self.saying(i, f(self.bullets[i].text))
        } else {
            self
        }
    }

    /// An edit of the text of bullet `id` finds its place.
    pub open spec fn edit_fits_in(self, id: Uuid, e: EditModel) -> bool {
        let i = bullet_pos(self.bullets, id, 0);
        i < self.bullets.len() ==> edit_fits(self.bullets[i].text.doc.text, e)
            && self.bullets[i].text.doc.room(e.with.len() as int)
    }

    /// With bullet `i` closed or opened.
    pub open spec fn closing(self, id: Uuid, closed_at: Option<i64>) -> OutlineModel {
        let i = bullet_pos(self.bullets, id, 0);
        if i < self.bullets.len() {
            self.listing(
                self.bullets.update(i, BulletModel { closed_at, ..self.bullets[i] }),
            )
        } else {
            self
        }
    }

    /// With bullet `i` scheduled otherwise.
    pub open spec fn scheduling(self, id: Uuid, when: Option<i64>) -> OutlineModel {
        let i = bullet_pos(self.bullets, id, 0);
        if i < self.bullets.len() {
            self.listing(
                self.bullets.update(i, BulletModel { resurface_after: when, ..self.bullets[i] }),
            )
        } else {
            self
        }
    }

    /// A bullet and its subtree selected, the focus on the bullet.
    pub open spec fn subtree_selected(self, id: Uuid) -> OutlineModel {
        let i = bullet_pos(self.bullets, id, 0);
        if i < self.bullets.len() {
            let end = subtree_end(self.bullets, self.bullets[i].depth, i + 1);
            self.selecting(
                Some(BulletSelection { anchor_id: id, head_id: self.bullets[end - 1].id }),
            ).focusing(id)
        } else {
            self
        }
    }
}

/// What undo restores of a bullet.
#[verifier::ext_equal]
pub struct BulletDoc {
    pub id: Uuid,
    pub doc: Doc,
    pub depth: u32,
    pub closed_at: Option<i64>,
    pub resurface_after: Option<i64>,
}

/// What undo restores of an outline.
#[verifier::ext_equal]
pub struct OutlineDoc {
    pub bullets: Seq<BulletDoc>,
    pub focused: Uuid,
    pub target: Option<ReferenceTarget>,
}

impl BulletModel {
    /// What undo restores of the bullet.
    pub open spec fn doc(self) -> BulletDoc {
        BulletDoc {
            id: self.id,
            doc: self.text.doc,
            depth: self.depth,
            closed_at: self.closed_at,
            resurface_after: self.resurface_after,
        }
    }
}

impl BulletDoc {
    /// The bullet made anew.
    pub open spec fn bullet(self) -> BulletModel {
        BulletModel {
            id: self.id,
            text: TextModel::fresh(Seq::empty()).restored(self.doc),
            depth: self.depth,
            closed_at: self.closed_at,
            resurface_after: self.resurface_after,
        }
    }
}

/// The bullets made anew.
pub open spec fn bullets_of(docs: Seq<BulletDoc>) -> Seq<BulletModel> {
    Seq::new(docs.len(), |i: int| docs[i].bullet())
}

/// What undo restores of bullets.
pub open spec fn docs_of(bs: Seq<BulletModel>) -> Seq<BulletDoc> {
    Seq::new(bs.len(), |i: int| bs[i].doc())
}

impl OutlineModel {
    /// What undo restores of the outline around an embed of `target`.
    pub open spec fn doc(self, target: Option<ReferenceTarget>) -> OutlineDoc {
        OutlineDoc { bullets: docs_of(self.bullets), focused: self.focused, target }
    }

    /// The document put back; drags and selections are gone.
    pub open spec fn restored(self, d: OutlineDoc) -> OutlineModel {
        OutlineModel {
            bullets: bullets_of(d.bullets),
            focused: d.focused,
            drag: None,
            selection: None,
            ..self
        }
    }
}

/// Every document of the bullets is well formed, and there is one.
pub open spec fn outline_doc_wf(d: OutlineDoc) -> bool {
    &&& d.bullets.len() > 0
    &&& forall|i: int| 0 <= i < d.bullets.len() ==> (#[trigger] d.bullets[i]).doc.wf()
}

/// What has been put back is what was taken: the snapshot of a restored outline
/// is the snapshot it was restored from.
pub proof fn restoring_an_outline_gives_back_its_snapshot(m: OutlineModel, d: OutlineDoc)
    ensures
        m.restored(d).doc(d.target) == d,
{
    assert(m.restored(d).doc(d.target).bullets =~= d.bullets);
}

} // verus!
