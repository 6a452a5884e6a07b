//! What a text box is, mathematically: the state that its contracts speak of,
//! and what each operation makes of that state.
use vstd::prelude::*;
use vstd::utf8::*;

use crate::cell::common::{
    ends_satisfy, is_tag_address, lemma_normalized_keeps, line_edge_mod, moved_end, moved_index,
    primary_mod, sort_by_start, tag_addresses_name_their_tag, tag_of_address, tag_scheme, word_mod,
    Affinity, EditModel, Key, KeyEvent, Link, Modifiers, Selection, SelectionSet,
};
use crate::cell::wrap::{
    affinity_of_hit, caret_place, chained, inline_tags, lemma_caret_place, lemma_chained_lines,
    lemma_next_boundary, lemma_prev_boundary, lemma_word_bounds, line_of, line_spans,
    link_covering, next_boundary, prev_boundary, runs_from, stepped, trailing_tags, visible_end,
    word_at, word_left, word_right, wrapped_text, RunModel, Span,
};
use crate::text::{
    boundary, first_byte, lemma_boundary_ends, lemma_splice_boundaries, lemma_splice_valid,
    spliced, utf8,
};

verus! {

/// How many states the undo stack of a text box holds.
pub const TEXTBOX_UNDO_CAP: usize = 200;

/// Edits less than this many nanoseconds apart are undone together.
pub const TEXTBOX_COALESCE_NANOS: u64 = 600_000_000;

/// Clicks at most this many nanoseconds apart count as one multi-click.
pub const MULTI_CLICK_NANOS: u64 = 500_000_000;

/// The document state of a text box: what undo restores.
#[verifier::ext_equal]
pub struct Doc {
    pub text: Seq<u8>,
    pub sels: SelectionSet,
    /// The host's zoom factor; it is only copied and compared.
    pub scale: u32,
    pub links: Seq<Link>,
}

/// What a drag extends by.
#[verifier::ext_equal]
pub enum DragKindModel {
    Char,
    Word(Span),
    Line(Span),
}

/// A mouse drag in progress.
#[verifier::ext_equal]
pub struct DragModel {
    pub sel: int,
    pub kind: DragKindModel,
}

/// The whole state of a text box.
#[verifier::ext_equal]
pub struct TextModel {
    pub doc: Doc,
    /// The visual lines; none while the text has not been wrapped since it
    /// last changed.
    pub lines: Seq<Span>,
    pub headings: Seq<bool>,
    pub comments: Seq<bool>,
    pub drag: Option<DragModel>,
    pub last_click: Option<u64>,
    pub clicks: int,
    pub force_heading: bool,
    pub comment_coloring: bool,
    pub pending_url: Option<Seq<u8>>,
    pub pending_tag: Option<Seq<u8>>,
    pub undo: Seq<Doc>,
    pub redo: Seq<Doc>,
    pub last_edit: Option<u64>,
    /// The next edit starts an undo entry of its own.
    pub break_next: bool,
}

/// Both ends of `s` are places in `text`.
pub open spec fn placed(text: Seq<u8>, s: Selection) -> bool {
    ends_satisfy(s, |x: int| boundary(text, x))
}

/// `lines` are the lines of `text`, or there are none.
pub open spec fn lines_of_text(text: Seq<u8>, lines: Seq<Span>) -> bool {
    lines.len() == 0 || chained(text, lines, 0, text.len() as int)
}

impl Doc {
    /// The text is UTF-8 and every caret and anchor is a place in it.
    pub open spec fn wf(self) -> bool {
        &&& valid_utf8(self.text)
        &&& self.sels.wf()
        &&& forall|i: int|
            0 <= i < self.sels.items.len() ==> placed(self.text, #[trigger] self.sels.items[i])
    }

    /// Offsets still fit the machine once `n` more bytes have been put in.
    pub open spec fn room(self, n: int) -> bool {
        &&& self.text.len() + n <= usize::MAX
        &&& forall|i: int|
            #![trigger self.links[i]]
            0 <= i < self.links.len() ==> self.links[i].start + n <= usize::MAX
                && self.links[i].end + n <= usize::MAX
    }
}

impl TextModel {
    /// The state that operations keep: the document is well formed, so are the
    /// states that undo and redo would restore, and the visual lines, where
    /// there are any, are those of the text.
    pub open spec fn wf(self) -> bool {
        &&& self.doc.wf()
        &&& lines_of_text(self.doc.text, self.lines)
        &&& self.headings.len() == self.lines.len()
        &&& self.comments.len() == self.lines.len()
        &&& forall|i: int| 0 <= i < self.undo.len() ==> (#[trigger] self.undo[i]).wf()
        &&& forall|i: int| 0 <= i < self.redo.len() ==> (#[trigger] self.redo[i]).wf()
    }

    /// A fresh text box over `text`.
    pub open spec fn fresh(text: Seq<u8>) -> TextModel {
        TextModel {
            doc: Doc {
                text,
                sels: SelectionSet::at(0),
                scale: DEFAULT_SCALE,
                links: Seq::empty(),
            },
            lines: Seq::empty(),
            headings: Seq::empty(),
            comments: Seq::empty(),
            drag: None,
            last_click: None,
            clicks: 0,
            force_heading: false,
            comment_coloring: false,
            pending_url: None,
            pending_tag: None,
            undo: Seq::empty(),
            redo: Seq::empty(),
            last_edit: None,
            break_next: false,
        }
    }

    /// The text changed or will be set otherwise: the lines are to be computed
    /// anew.
    pub open spec fn unwrapped(self) -> TextModel {
        TextModel {
            lines: Seq::empty(),
            headings: Seq::empty(),
            comments: Seq::empty(),
            ..self
        }
    }

    /// With other selections.
    pub open spec fn selecting(self, sels: SelectionSet) -> TextModel {
        TextModel { doc: Doc { sels, ..self.doc }, ..self }
    }

    /// With other links.
    pub open spec fn linking(self, links: Seq<Link>) -> TextModel {
        TextModel { doc: Doc { links, ..self.doc }, ..self }
    }

    /// The typing burst has ended.
    pub open spec fn breaking(self) -> TextModel {
        TextModel { break_next: true, ..self }
    }
}

/// The zoom factor 1, as the bits of an `f32`.
pub const DEFAULT_SCALE: u32 = 0x3f80_0000;

// ---------------------------------------------------------------------------
// Undo
// ---------------------------------------------------------------------------

/// `now` is less than the coalescing interval behind `t`.
pub open spec fn recent(t: u64, now: u64) -> bool {
    now < t || now - t < TEXTBOX_COALESCE_NANOS
}

impl TextModel {
    /// An edit at `now` belongs to the burst that the last undo entry covers.
    pub open spec fn coalesces(self, now: u64) -> bool {
        &&& !self.break_next
        &&& self.undo.len() > 0
        &&& self.last_edit matches Some(t) && recent(t, now)
    }

    /// The undo stack once an edit at `now` has been recorded.
    pub open spec fn undo_recorded(self, now: u64) -> Seq<Doc> {
        let pushed = self.undo.push(self.doc);
        if self.coalesces(now) {
            self.undo
        } else if pushed.len() > TEXTBOX_UNDO_CAP {
            pushed.drop_first()
        } else {
            pushed
        }
    }

    /// The state recorded before an edit at `now`: redo is gone in any case.
    pub open spec fn recorded(self, now: u64) -> TextModel {
        TextModel {
            undo: self.undo_recorded(now),
            redo: Seq::empty(),
            last_edit: Some(now),
            break_next: false,
            ..self
        }
    }

    /// The document put back, input in progress dropped.
    pub open spec fn restored(self, doc: Doc) -> TextModel {
        TextModel { doc, drag: None, clicks: 0, last_click: None, ..self.unwrapped() }
    }

    /// One edit undone.
    pub open spec fn undone(self) -> TextModel {
        if self.undo.len() == 0 {
            self
        } else {
            TextModel {
                undo: self.undo.drop_last(),
                redo: self.redo.push(self.doc),
                break_next: true,
                ..self.restored(self.undo.last())
            }
        }
    }

    /// One undone edit replayed.
    pub open spec fn redone(self) -> TextModel {
        if self.redo.len() == 0 {
            self
        } else {
            TextModel {
                redo: self.redo.drop_last(),
                undo: self.undo.push(self.doc),
                break_next: true,
                ..self.restored(self.redo.last())
            }
        }
    }
}

/// Redo takes back what undo did: document and both stacks are as before.
pub proof fn redo_reverts_undo(m: TextModel)
    requires
        m.undo.len() > 0,
    ensures
        m.undone().redone().doc == m.doc,
        m.undone().redone().undo == m.undo,
        m.undone().redone().redo == m.redo,
{
    assert(m.undone().redone().undo =~= m.undo);
    assert(m.undone().redone().redo =~= m.redo);
}

/// Undo takes back what redo did.
pub proof fn undo_reverts_redo(m: TextModel)
    requires
        m.redo.len() > 0,
    ensures
        m.redone().undone().doc == m.doc,
        m.redone().undone().undo == m.undo,
        m.redone().undone().redo == m.redo,
{
    assert(m.redone().undone().undo =~= m.undo);
    assert(m.redone().undone().redo =~= m.redo);
}

/// Whatever an edit made of the document, undoing it gives back the document as
/// it was before the edit, or before the burst of typing the edit belongs to;
/// and once the edit is made nothing can be redone.
pub proof fn undo_reverts_the_last_burst(m: TextModel, now: u64, edited: TextModel)
    requires
        edited.undo == m.recorded(now).undo,
        edited.redo == m.recorded(now).redo,
    ensures
        edited.undone().doc == (if m.coalesces(now) {
            m.undo.last()
        } else {
            m.doc
        }),
        edited.redo.len() == 0,
        edited.redone() == edited,
        edited.undone().redone().doc == edited.doc,
{
    let pushed = m.undo.push(m.doc);
    if !m.coalesces(now) && pushed.len() > TEXTBOX_UNDO_CAP {
        assert(pushed.drop_first().last() == m.doc);
    }
}

/// The undo stack never grows beyond its cap by an edit.
pub proof fn undo_stack_is_bounded(m: TextModel, now: u64)
    requires
        m.undo.len() <= TEXTBOX_UNDO_CAP,
    ensures
        m.recorded(now).undo.len() <= TEXTBOX_UNDO_CAP,
{
}

// ---------------------------------------------------------------------------
// Edits
// ---------------------------------------------------------------------------

/// A link after an edit: where it starts and ends now and, for a committed tag,
/// the address of the tag that its text now spells; nothing where it has become
/// empty or a tag has lost its `#`.
pub open spec fn edited_link(l: Link, e: EditModel, text: Seq<u8>) -> Option<Link> {
    let start = moved_index(l.start, e.start, e.end - e.start, e.with.len() as int);
    let end = moved_end(l.end, e.start, e.end - e.start, e.with.len() as int);
    if start >= end {
        None
    } else if is_tag_address(l.url) {
        if boundary(text, start) && boundary(text, end) && text[start] == 35 {
            Some(Link { start, end, url: tag_scheme() + text.subrange(start + 1, end) })
        } else {
            None
        }
    } else {
        Some(Link { start, end, url: l.url })
    }
}

/// The links after an edit that made the text `text`.
pub open spec fn edited_links(links: Seq<Link>, e: EditModel, text: Seq<u8>) -> Seq<Link>
    decreases links.len(),
{
    if links.len() == 0 {
        Seq::empty()
    } else {
        let rest = edited_links(links.drop_last(), e, text);
        match edited_link(links.last(), e, text) {
            Some(l) => rest.push(l),
            None => rest,
        }
    }
}

/// A selection after an edit.
pub open spec fn edited_selection(s: Selection, e: EditModel) -> Selection {
    Selection {
        anchor: moved_index(
            s.anchor as int,
            e.start,
            e.end - e.start,
            e.with.len() as int,
        ) as usize,
        head: moved_index(
            s.head as int,
            e.start,
            e.end - e.start,
            e.with.len() as int,
        ) as usize,
        affinity: Affinity::Downstream,
    }
}

/// `e` replaces a part of `text`.
pub open spec fn edit_fits(text: Seq<u8>, e: EditModel) -> bool {
    &&& e.start <= e.end
    &&& boundary(text, e.start)
    &&& boundary(text, e.end)
    &&& valid_utf8(e.with)
}

impl Doc {
    /// The document after an edit: the text spliced, carets riding with what was
    /// inserted and joined where they meet, links moved along.
    pub open spec fn edited(self, e: EditModel) -> Doc {
        let text = spliced(self.text, e.start, e.end, e.with);
        Doc {
            text,
            sels: SelectionSet {
                items: Seq::new(
                    self.sels.items.len(),
                    |i: int| edited_selection(self.sels.items[i], e),
                ),
                primary: self.sels.primary,
            }.normalized(),
            scale: self.scale,
            links: edited_links(self.links, e, text),
        }
    }

    /// The document after `edits`, one after the other.
    pub open spec fn edited_by(self, edits: Seq<EditModel>) -> Doc
        decreases edits.len(),
    {
        if edits.len() == 0 {
            self
        } else {
            self.edited(edits[0]).edited_by(edits.drop_first())
        }
    }
}

/// Every one of `edits` replaces a part of the text that those before it left.
pub open spec fn edits_fit(text: Seq<u8>, edits: Seq<EditModel>) -> bool
    decreases edits.len(),
{
    if edits.len() == 0 {
        true
    } else {
        &&& edit_fits(text, edits[0])
        &&& edits_fit(
            spliced(text, edits[0].start, edits[0].end, edits[0].with),
            edits.drop_first(),
        )
    }
}

/// The number of bytes that `edits` put in.
pub open spec fn inserted(edits: Seq<EditModel>) -> int
    decreases edits.len(),
{
    if edits.len() == 0 {
        0
    } else {
        edits[0].with.len() + inserted(edits.drop_first())
    }
}

/// `e` put into `v` behind every edit that starts no earlier.
pub open spec fn insert_by_start_back(v: Seq<EditModel>, e: EditModel) -> Seq<EditModel>
    decreases v.len(),
{
    if v.len() == 0 || v.last().start >= e.start {
        v.push(e)
    } else {
        insert_by_start_back(v.drop_last(), e).push(v.last())
    }
}

/// `edits` ordered from the back of the text to its front.
pub open spec fn right_to_left(edits: Seq<EditModel>) -> Seq<EditModel>
    decreases edits.len(),
{
    if edits.len() == 0 {
        edits
    } else {
        insert_by_start_back(right_to_left(edits.drop_last()), edits.last())
    }
}

pub proof fn lemma_edited_links_room(links: Seq<Link>, e: EditModel, text: Seq<u8>, n: int, len: int)
    requires
        0 <= e.start <= e.end <= len,
        len + n <= usize::MAX,
        e.with.len() <= n,
        forall|i: int|
            #![trigger links[i]]
            0 <= i < links.len() ==> 0 <= links[i].start && 0 <= links[i].end && links[i].start + n
                <= usize::MAX && links[i].end + n <= usize::MAX,
    ensures
        edited_links(links, e, text).len() <= links.len(),
        forall|i: int|
            #![trigger edited_links(links, e, text)[i]]
            0 <= i < edited_links(links, e, text).len() ==> 0 <= edited_links(
                links,
                e,
                text,
            )[i].start && 0 <= edited_links(links, e, text)[i].end && edited_links(
                links,
                e,
                text,
            )[i].start + n - e.with.len() <= usize::MAX && edited_links(links, e, text)[i].end + n
                - e.with.len() <= usize::MAX,
    decreases links.len(),
{
    if links.len() > 0 {
        let d = links.drop_last();
        assert forall|i: int| #![trigger d[i]] 0 <= i < d.len() implies 0 <= d[i].start && 0
            <= d[i].end && d[i].start + n <= usize::MAX && d[i].end + n <= usize::MAX by {
            assert(d[i] == links[i]);
        }
        lemma_edited_links_room(d, e, text, n, len);
        let rest = edited_links(d, e, text);
        let all = edited_links(links, e, text);
        let l = links[links.len() - 1];
        assert forall|i: int| #![trigger all[i]] 0 <= i < all.len() implies 0 <= all[i].start && 0
            <= all[i].end && all[i].start + n - e.with.len() <= usize::MAX && all[i].end + n
            - e.with.len() <= usize::MAX by {
            if i < rest.len() {
                assert(all[i] == rest[i]);
            }
        }
    }
}

/// Every link lies at offsets that are not negative.
pub open spec fn links_natural(links: Seq<Link>) -> bool {
    forall|i: int|
        #![trigger links[i]]
        0 <= i < links.len() ==> 0 <= links[i].start && 0 <= links[i].end
}

/// An edit that fits keeps a document well formed.
pub proof fn lemma_edited_wf(d: Doc, e: EditModel)
    requires
        d.wf(),
        edit_fits(d.text, e),
        d.text.len() + e.with.len() <= usize::MAX,
    ensures
        d.edited(e).wf(),
        d.edited(e).text == spliced(d.text, e.start, e.end, e.with),
        d.edited(e).text.len() == d.text.len() - (e.end - e.start) + e.with.len(),
        d.sels.items.len() > 0 ==> d.edited(e).sels.items.len() > 0,
{
    let text = spliced(d.text, e.start, e.end, e.with);
    lemma_splice_valid(d.text, e.start, e.end, e.with);
    lemma_splice_boundaries(d.text, e.start, e.end, e.with);
    let moved = SelectionSet {
        items: Seq::new(d.sels.items.len(), |i: int| edited_selection(d.sels.items[i], e)),
        primary: d.sels.primary,
    };
    let p = |x: int| boundary(text, x);
    assert forall|i: int| 0 <= i < moved.items.len() implies ends_satisfy(
        #[trigger] moved.items[i],
        p,
    ) by {
        let s = d.sels.items[i];
        assert(placed(d.text, s));
        lemma_moved_boundary(d.text, s.anchor as int, e);
        lemma_moved_boundary(d.text, s.head as int, e);
    }
    lemma_normalized_keeps(moved, p);
    assert forall|i: int| 0 <= i < d.edited(e).sels.items.len() implies placed(
        text,
        #[trigger] d.edited(e).sels.items[i],
    ) by {
        assert(ends_satisfy(moved.normalized().items[i], p));
    }
}

proof fn lemma_moved_boundary(text: Seq<u8>, i: int, e: EditModel)
    requires
        valid_utf8(text),
        edit_fits(text, e),
        boundary(text, i),
    ensures
        boundary(
            spliced(text, e.start, e.end, e.with),
            moved_index(i, e.start, e.end - e.start, e.with.len() as int),
        ),
        0 <= moved_index(i, e.start, e.end - e.start, e.with.len() as int) <= text.len()
            + e.with.len(),
{
    lemma_splice_boundaries(text, e.start, e.end, e.with);
    if i >= e.end {
        assert(boundary(
            spliced(text, e.start, e.end, e.with),
            i - (e.end - e.start) + e.with.len(),
        ));
    }
}

/// Edits that fit keep a document well formed, and leave room for what is yet
/// to be put in.
pub proof fn lemma_edited_by_wf(d: Doc, edits: Seq<EditModel>)
    requires
        d.wf(),
        links_natural(d.links),
        edits_fit(d.text, edits),
        d.room(inserted(edits)),
    ensures
        d.edited_by(edits).wf(),
        links_natural(d.edited_by(edits).links),
        d.sels.items.len() > 0 ==> d.edited_by(edits).sels.items.len() > 0,
    decreases edits.len(),
{
    lemma_inserted(edits);
    if edits.len() > 0 {
        let e = edits[0];
        lemma_inserted(edits.drop_first());
        lemma_edited_wf(d, e);
        lemma_edited_links_room(
            d.links,
            e,
            d.edited(e).text,
            inserted(edits),
            d.text.len() as int,
        );
        assert(d.edited(e).room(inserted(edits.drop_first())));
        lemma_edited_by_wf(d.edited(e), edits.drop_first());
    }
}

pub proof fn lemma_inserted(edits: Seq<EditModel>)
    ensures
        inserted(edits) >= 0,
        edits.len() > 0 ==> inserted(edits) >= edits[0].with.len(),
    decreases edits.len(),
{
    if edits.len() > 0 {
        lemma_inserted(edits.drop_first());
    }
}

/// Sorting keeps what edits put in, and their number.
pub proof fn lemma_right_to_left(edits: Seq<EditModel>)
    ensures
        right_to_left(edits).len() == edits.len(),
        inserted(right_to_left(edits)) == inserted(edits),
    decreases edits.len(),
{
    if edits.len() > 0 {
        lemma_right_to_left(edits.drop_last());
        lemma_insert_back(right_to_left(edits.drop_last()), edits.last());
        lemma_inserted_push(edits.drop_last(), edits.last());
        assert(edits.drop_last().push(edits.last()) =~= edits);
    }
}

proof fn lemma_insert_back(v: Seq<EditModel>, e: EditModel)
    ensures
        insert_by_start_back(v, e).len() == v.len() + 1,
        inserted(insert_by_start_back(v, e)) == inserted(v) + e.with.len(),
    decreases v.len(),
{
    if v.len() == 0 || v.last().start >= e.start {
        lemma_inserted_push(v, e);
    } else {
        lemma_insert_back(v.drop_last(), e);
        lemma_inserted_push(insert_by_start_back(v.drop_last(), e), v.last());
        lemma_inserted_push(v.drop_last(), v.last());
        assert(v.drop_last().push(v.last()) =~= v);
    }
}

pub proof fn lemma_inserted_push(v: Seq<EditModel>, e: EditModel)
    ensures
        inserted(v.push(e)) == inserted(v) + e.with.len(),
    decreases v.len(),
{
    if v.len() == 0 {
        assert(v.push(e).drop_first() =~= v);
    } else {
        lemma_inserted_push(v.drop_first(), e);
        assert(v.push(e).drop_first() =~= v.drop_first().push(e));
    }
}

/// Inserting at its place is what sorting does with the next edit.
pub proof fn lemma_insert_back_at(v: Seq<EditModel>, e: EditModel, k: int)
    requires
        0 <= k <= v.len(),
        forall|i: int| k <= i < v.len() ==> (#[trigger] v[i]).start < e.start,
        k > 0 ==> v[k - 1].start >= e.start,
    ensures
        insert_by_start_back(v, e) == v.insert(k, e),
    decreases v.len() - k,
{
    if k == v.len() {
        assert(v.insert(k, e) =~= v.push(e));
    } else {
        lemma_insert_back_at(v.drop_last(), e, k);
        assert(v.insert(k, e) =~= v.drop_last().insert(k, e).push(v.last()));
    }
}

/// A selection with ends given as integers.
pub open spec fn selection(anchor: int, head: int, affinity: Affinity) -> Selection {
    Selection { anchor: anchor as usize, head: head as usize, affinity }
}

/// The edits that `f` gives for `items`, in their order.
pub open spec fn gather(
    items: Seq<Selection>,
    f: spec_fn(Selection) -> Option<EditModel>,
) -> Seq<EditModel>
    decreases items.len(),
{
    if items.len() == 0 {
        Seq::empty()
    } else {
        let rest = gather(items.drop_last(), f);
        match f(items.last()) {
            Some(e) => rest.push(e),
            None => rest,
        }
    }
}

/// The deletion of a range, where it is not empty.
pub open spec fn deletion(start: int, end: int) -> Option<EditModel> {
    if start < end {
        Some(EditModel { start, end, with: Seq::empty() })
    } else {
        None
    }
}

/// What a selection's edit is: its range replaced by `with`.
pub open spec fn replacing(with: Seq<u8>) -> spec_fn(Selection) -> Option<EditModel> {
    |s: Selection| Some(EditModel { start: s.lo(), end: s.hi(), with })
}

/// What Backspace deletes: the selection, or the character in front of the
/// caret.
pub open spec fn erasing_back(b: Seq<u8>) -> spec_fn(Selection) -> Option<EditModel> {
    |s: Selection|
        if s.anchor == s.head {
            deletion(prev_boundary(b, s.head as int), s.head as int)
        } else {
            deletion(s.lo(), s.hi())
        }
}

/// What Delete deletes: the selection, or the character at the caret.
pub open spec fn erasing_forward(b: Seq<u8>) -> spec_fn(Selection) -> Option<EditModel> {
    |s: Selection|
        if s.anchor == s.head {
            deletion(s.head as int, next_boundary(b, s.head as int))
        } else {
            deletion(s.lo(), s.hi())
        }
}

/// What word-wise Backspace deletes: the selection, or the run in front of the
/// caret.
pub open spec fn erasing_word_back(b: Seq<u8>) -> spec_fn(Selection) -> Option<EditModel> {
    |s: Selection|
        if s.anchor == s.head {
            deletion(word_left(b, s.head as int).start, word_left(b, s.head as int).end)
        } else {
            deletion(s.lo(), s.hi())
        }
}

/// What word-wise Delete deletes: the selection, or the run at the caret.
pub open spec fn erasing_word_forward(b: Seq<u8>) -> spec_fn(Selection) -> Option<EditModel> {
    |s: Selection|
        if s.anchor == s.head {
            deletion(word_right(b, s.head as int).start, word_right(b, s.head as int).end)
        } else {
            deletion(s.lo(), s.hi())
        }
}

impl TextModel {
    /// The edits that `f` gives for the selections.
    pub open spec fn edits(self, f: spec_fn(Selection) -> Option<EditModel>) -> Seq<EditModel> {
        gather(self.doc.sels.items, f)
    }

    /// `edits` can be made: from the back of the text to its front each replaces
    /// a part of the text, and the result fits the machine.
    pub open spec fn can_apply(self, edits: Seq<EditModel>) -> bool {
        &&& edits_fit(self.doc.text, right_to_left(edits))
        &&& self.doc.room(inserted(edits))
    }

    /// `edits` made at `now`, as one step for undo.
    pub open spec fn applying(self, edits: Seq<EditModel>, now: u64) -> TextModel {
        if edits.len() == 0 {
            self
        } else {
            TextModel {
                doc: self.doc.edited_by(right_to_left(edits)),
                ..self.recorded(now).unwrapped()
            }
        }
    }

    /// Some selection is not collapsed.
    pub open spec fn has_selection(self) -> bool {
        exists|i: int|
            0 <= i < self.doc.sels.items.len() && (#[trigger] self.doc.sels.items[i]).anchor
                != self.doc.sels.items[i].head
    }

    /// The selected texts deleted.
    pub open spec fn selection_deleted(self, now: u64) -> TextModel {
        if self.has_selection() {
            self.applying(self.edits(replacing(Seq::empty())), now)
        } else {
            self
        }
    }

    /// Every selection mapped by `f`, then put in order and joined.
    pub open spec fn moving(self, f: spec_fn(Selection) -> Selection) -> TextModel {
        self.selecting(
            SelectionSet {
                items: Seq::new(
                    self.doc.sels.items.len(),
                    |i: int| f(self.doc.sels.items[i]),
                ),
                primary: self.doc.sels.primary,
            }.normalized(),
        )
    }
}

pub proof fn lemma_gather_replacing(items: Seq<Selection>, with: Seq<u8>)
    ensures
        gather(items, replacing(with)).len() == items.len(),
        inserted(gather(items, replacing(with))) == items.len() * with.len(),
    decreases items.len(),
{
    if items.len() > 0 {
        lemma_gather_replacing(items.drop_last(), with);
        lemma_inserted_push(
            gather(items.drop_last(), replacing(with)),
            EditModel { start: items.last().lo(), end: items.last().hi(), with },
        );
        let n = items.drop_last().len();
        assert((n + 1) * with.len() == n * with.len() + with.len()) by (nonlinear_arith);
    } else {
        assert(0 * with.len() == 0) by (nonlinear_arith);
    }
}

/// Mapping well placed selections to well placed selections keeps a text box
/// well formed.
pub proof fn lemma_moving_wf(m: TextModel, f: spec_fn(Selection) -> Selection)
    requires
        m.wf(),
        forall|i: int|
            0 <= i < m.doc.sels.items.len() ==> placed(
                m.doc.text,
                #[trigger] f(m.doc.sels.items[i]),
            ),
    ensures
        m.moving(f).wf(),
{
    let text = m.doc.text;
    let p = |x: int| boundary(text, x);
    let moved = SelectionSet {
        items: Seq::new(m.doc.sels.items.len(), |i: int| f(m.doc.sels.items[i])),
        primary: m.doc.sels.primary,
    };
    assert forall|i: int| 0 <= i < moved.items.len() implies ends_satisfy(
        #[trigger] moved.items[i],
        p,
    ) by {
        assert(placed(text, f(m.doc.sels.items[i])));
    }
    lemma_normalized_keeps(moved, p);
    assert forall|i: int| 0 <= i < m.moving(f).doc.sels.items.len() implies placed(
        text,
        #[trigger] m.moving(f).doc.sels.items[i],
    ) by {
        assert(ends_satisfy(moved.normalized().items[i], p));
    }
}

/// Edits that can be made keep a text box well formed.
pub proof fn lemma_applying_wf(m: TextModel, edits: Seq<EditModel>, now: u64)
    requires
        m.wf(),
        links_natural(m.doc.links),
        m.can_apply(edits),
    ensures
        m.applying(edits, now).wf(),
        links_natural(m.applying(edits, now).doc.links),
        m.doc.sels.items.len() > 0 ==> m.applying(edits, now).doc.sels.items.len() > 0,
{
    if edits.len() > 0 {
        lemma_right_to_left(edits);
        lemma_edited_by_wf(m.doc, right_to_left(edits));
        lemma_recorded_wf(m, now);
    }
}

pub proof fn lemma_recorded_wf(m: TextModel, now: u64)
    requires
        m.wf(),
    ensures
        m.recorded(now).wf(),
{
    let pushed = m.undo.push(m.doc);
    assert forall|i: int| 0 <= i < m.recorded(now).undo.len() implies (
    #[trigger] m.recorded(now).undo[i]).wf() by {
        if !m.coalesces(now) && pushed.len() > TEXTBOX_UNDO_CAP {
            assert(m.recorded(now).undo[i] == pushed[i + 1]);
        }
    }
}

// ---------------------------------------------------------------------------
// Caret movement
// ---------------------------------------------------------------------------

/// A caret one step to the left or right. Without Shift a selection collapses
/// onto the end it moves towards.
pub open spec fn stepping(
    b: Seq<u8>,
    lines: Seq<Span>,
    forward: bool,
    shift: bool,
) -> spec_fn(Selection) -> Selection {
    |s: Selection|
        if !shift && s.anchor != s.head {
            let target = if forward {
                s.hi()
            } else {
                s.lo()
            };
            let keeps = (forward && s.head >= s.anchor) || (!forward && s.head <= s.anchor);
            selection(
                target,
                target,
                if keeps {
                    s.affinity
                } else {
                    Affinity::Downstream
                },
            )
        } else {
            let to = stepped(b, lines, s.head as int, s.affinity, forward);
            selection(
                if shift {
                    s.anchor as int
                } else {
                    to.0
                },
                to.0,
                to.1,
            )
        }
}

/// A caret one word to the left or right.
pub open spec fn word_stepping(
    b: Seq<u8>,
    forward: bool,
    shift: bool,
) -> spec_fn(Selection) -> Selection {
    |s: Selection|
        {
            let head = if forward {
                word_right(b, s.head as int).end
            } else {
                word_left(b, s.head as int).start
            };
            selection(
                if shift {
                    s.anchor as int
                } else {
                    head
                },
                head,
                if head != s.head {
                    Affinity::Downstream
                } else {
                    s.affinity
                },
            )
        }
}

/// The last boundary at or in front of `base + off`, as an offset from `base`;
/// 0 where there is none behind `base`.
pub open spec fn snapped(b: Seq<u8>, base: int, off: int) -> int
    decreases off,
{
    if off <= 0 || boundary(b, base + off) {
        off
    } else {
        snapped(b, base, off - 1)
    }
}

/// A caret one visual line up or down, at the same byte offset of the line
/// where that line is long enough.
pub open spec fn line_stepping(
    b: Seq<u8>,
    lines: Seq<Span>,
    down: bool,
    shift: bool,
) -> spec_fn(Selection) -> Selection {
    |s: Selection|
        {
            let at = caret_place(lines, s.head as int, s.affinity);
            let target = if down {
                at.0 + 1
            } else {
                at.0 - 1
            };
            if target < 0 || target >= lines.len() {
                s
            } else {
                let len = lines[target].end - lines[target].start;
                let off = snapped(
                    b,
                    lines[target].start,
                    if at.1 < len {
                        at.1
                    } else {
                        len
                    },
                );
                let head = lines[target].start + off;
                selection(
                    if shift {
                        s.anchor as int
                    } else {
                        head
                    },
                    head,
                    if off == 0 && target > 0 {
                        Affinity::Downstream
                    } else if off == len && target + 1 < lines.len() {
                        Affinity::Upstream
                    } else {
                        Affinity::Downstream
                    },
                )
            }
        }
}

/// A caret at the start or end of its visual line.
pub open spec fn edge_stepping(
    lines: Seq<Span>,
    end: bool,
    shift: bool,
) -> spec_fn(Selection) -> Selection {
    |s: Selection|
        {
            let at = caret_place(lines, s.head as int, s.affinity).0;
            let head = if end {
                lines[at].end
            } else {
                lines[at].start
            };
            selection(
                if shift {
                    s.anchor as int
                } else {
                    head
                },
                head,
                if end && at + 1 < lines.len() {
                    Affinity::Upstream
                } else {
                    Affinity::Downstream
                },
            )
        }
}

impl TextModel {
    pub open spec fn moved_horizontally(self, forward: bool, shift: bool) -> TextModel {
        self.moving(stepping(self.doc.text, self.lines, forward, shift))
    }

    pub open spec fn moved_by_word(self, forward: bool, shift: bool) -> TextModel {
        self.moving(word_stepping(self.doc.text, forward, shift))
    }

    pub open spec fn moved_vertically(self, down: bool, shift: bool) -> TextModel {
        if self.lines.len() == 0 {
            self
        } else {
            self.moving(line_stepping(self.doc.text, self.lines, down, shift))
        }
    }

    pub open spec fn moved_to_edge(self, end: bool, shift: bool) -> TextModel {
        if self.lines.len() == 0 {
            self
        } else {
            self.moving(edge_stepping(self.lines, end, shift))
        }
    }
}

pub proof fn lemma_stepping(
    b: Seq<u8>,
    lines: Seq<Span>,
    forward: bool,
    shift: bool,
    s: Selection,
)
    requires
        valid_utf8(b),
        b.len() <= usize::MAX,
        placed(b, s),
    ensures
        placed(b, stepping(b, lines, forward, shift)(s)),
{
    lemma_next_boundary(b, s.head as int);
    lemma_prev_boundary(b, s.head as int);
    assert(boundary(b, s.anchor as int) && boundary(b, s.head as int));
}

pub proof fn lemma_word_stepping(b: Seq<u8>, forward: bool, shift: bool, s: Selection)
    requires
        valid_utf8(b),
        b.len() <= usize::MAX,
        placed(b, s),
    ensures
        placed(b, word_stepping(b, forward, shift)(s)),
{
    assert(boundary(b, s.anchor as int) && boundary(b, s.head as int));
    lemma_word_bounds(b, s.head as int);
}

pub proof fn lemma_snapped(b: Seq<u8>, base: int, off: int)
    requires
        boundary(b, base),
        0 <= off,
    ensures
        0 <= snapped(b, base, off) <= off,
        boundary(b, base + snapped(b, base, off)),
    decreases off,
{
    if off > 0 && !boundary(b, base + off) {
        lemma_snapped(b, base, off - 1);
    }
}

pub proof fn lemma_line_stepping(
    b: Seq<u8>,
    lines: Seq<Span>,
    down: bool,
    shift: bool,
    s: Selection,
)
    requires
        valid_utf8(b),
        b.len() <= usize::MAX,
        placed(b, s),
        lines.len() > 0,
        lines_of_text(b, lines),
    ensures
        placed(b, line_stepping(b, lines, down, shift)(s)),
{
    lemma_boundary_ends(b);
    lemma_chained_lines(b, lines, 0, b.len() as int);
    lemma_caret_place(lines, s.head as int, s.affinity);
    let at = caret_place(lines, s.head as int, s.affinity);
    let target = if down {
        at.0 + 1
    } else {
        at.0 - 1
    };
    assert(boundary(b, s.anchor as int) && boundary(b, s.head as int));
    if 0 <= target < lines.len() {
        let len = lines[target].end - lines[target].start;
        let off = if at.1 < len {
            at.1
        } else {
            len
        };
        lemma_snapped(b, lines[target].start, off);
    }
}

pub proof fn lemma_edge_stepping(
    b: Seq<u8>,
    lines: Seq<Span>,
    end: bool,
    shift: bool,
    s: Selection,
)
    requires
        valid_utf8(b),
        b.len() <= usize::MAX,
        placed(b, s),
        lines.len() > 0,
        lines_of_text(b, lines),
    ensures
        placed(b, edge_stepping(lines, end, shift)(s)),
{
    lemma_boundary_ends(b);
    lemma_chained_lines(b, lines, 0, b.len() as int);
    lemma_caret_place(lines, s.head as int, s.affinity);
    assert(boundary(b, s.anchor as int) && boundary(b, s.head as int));
}

/// Moving carets never takes them off the text: a well formed text box stays
/// well formed.
pub proof fn lemma_moves_wf(m: TextModel, forward: bool, shift: bool)
    requires
        m.wf(),
        m.doc.text.len() <= usize::MAX,
    ensures
        m.moved_horizontally(forward, shift).wf(),
        m.moved_by_word(forward, shift).wf(),
        m.moved_vertically(forward, shift).wf(),
        m.moved_to_edge(forward, shift).wf(),
{
    let b = m.doc.text;
    let items = m.doc.sels.items;
    let f1 = stepping(b, m.lines, forward, shift);
    let f2 = word_stepping(b, forward, shift);
    let f3 = line_stepping(b, m.lines, forward, shift);
    let f4 = edge_stepping(m.lines, forward, shift);
    assert forall|i: int| 0 <= i < items.len() implies placed(b, #[trigger] f1(items[i])) by {
        assert(placed(b, items[i]));
        lemma_stepping(b, m.lines, forward, shift, items[i]);
    }
    lemma_moving_wf(m, f1);
    assert forall|i: int| 0 <= i < items.len() implies placed(b, #[trigger] f2(items[i])) by {
        assert(placed(b, items[i]));
        lemma_word_stepping(b, forward, shift, items[i]);
    }
    lemma_moving_wf(m, f2);
    if m.lines.len() > 0 {
        assert forall|i: int| 0 <= i < items.len() implies placed(b, #[trigger] f3(items[i])) by {
            assert(placed(b, items[i]));
            lemma_line_stepping(b, m.lines, forward, shift, items[i]);
        }
        lemma_moving_wf(m, f3);
        assert forall|i: int| 0 <= i < items.len() implies placed(b, #[trigger] f4(items[i])) by {
            assert(placed(b, items[i]));
            lemma_edge_stepping(b, m.lines, forward, shift, items[i]);
        }
        lemma_moving_wf(m, f4);
    }
}

// ---------------------------------------------------------------------------
// Keys
// ---------------------------------------------------------------------------

/// A character of Unicode's category `Cc`.
pub open spec fn control(c: char) -> bool {
    c <= '\u{1f}' || '\u{7f}' <= c <= '\u{9f}'
}

/// `s` is text that a key types: not empty, and free of control characters.
pub open spec fn printable(s: Seq<char>) -> bool {
    s.len() > 0 && forall|i: int| 0 <= i < s.len() ==> !control(#[trigger] s[i])
}

/// The edits that a pressed key makes.
pub open spec fn key_edits(m: TextModel, ev: KeyEvent, mods: Modifiers) -> Seq<EditModel> {
    let b = m.doc.text;
    if !ev.pressed {
        Seq::empty()
    } else {
        match ev.key {
            Key::Backspace => if word_mod(mods) {
                m.edits(erasing_word_back(b))
            } else {
                m.edits(erasing_back(b))
            },
            Key::Delete => if word_mod(mods) {
                m.edits(erasing_word_forward(b))
            } else {
                m.edits(erasing_forward(b))
            },
            Key::Enter => m.edits(replacing(seq![10u8])),
            Key::Modifier | Key::Other => match ev.text {
                Some(s) if printable(s@) => m.edits(replacing(utf8(s@))),
                _ => Seq::empty(),
            },
            _ => Seq::empty(),
        }
    }
}

/// What a key event makes of a text box, and whether the text box took it.
pub open spec fn after_key(m: TextModel, ev: KeyEvent, mods: Modifiers, now: u64) -> (
    TextModel,
    bool,
) {
    if !ev.pressed {
        (m, false)
    } else {
        match ev.key {
            Key::ArrowLeft | Key::ArrowRight => {
                let forward = ev.key == Key::ArrowRight;
                if line_edge_mod(mods) {
                    (m.moved_to_edge(forward, mods.shift).breaking(), true)
                } else if word_mod(mods) {
                    (m.moved_by_word(forward, mods.shift).breaking(), true)
                } else {
                    (m.moved_horizontally(forward, mods.shift).breaking(), true)
                }
            },
            Key::ArrowUp => (m.moved_vertically(false, mods.shift).breaking(), true),
            Key::ArrowDown => (m.moved_vertically(true, mods.shift).breaking(), true),
            Key::Home => (m.moved_to_edge(false, mods.shift).breaking(), true),
            Key::End => (m.moved_to_edge(true, mods.shift).breaking(), true),
            Key::Backspace | Key::Delete | Key::Enter => (
                m.applying(key_edits(m, ev, mods), now),
                true,
            ),
            Key::Tab => (m, false),
            Key::Modifier | Key::Other => match ev.text {
                Some(s) if printable(s@) => (m.applying(key_edits(m, ev, mods), now), true),
                _ => (m, false),
            },
        }
    }
}

/// No key event breaks a text box, as long as the edits it asks for can be made.
pub proof fn keys_keep_text_boxes_well_formed(
    m: TextModel,
    ev: KeyEvent,
    mods: Modifiers,
    now: u64,
)
    requires
        m.wf(),
        links_natural(m.doc.links),
        m.doc.text.len() <= usize::MAX,
        m.can_apply(key_edits(m, ev, mods)),
    ensures
        after_key(m, ev, mods, now).0.wf(),
        links_natural(after_key(m, ev, mods, now).0.doc.links),
{
    lemma_applying_wf(m, key_edits(m, ev, mods), now);
    lemma_moves_wf(m, true, mods.shift);
    lemma_moves_wf(m, false, mods.shift);
}

// ---------------------------------------------------------------------------
// The mouse
// ---------------------------------------------------------------------------

/// What a click selects: a caret, a word or a line, and what a drag from there
/// extends by.
pub open spec fn click_unit(
    b: Seq<u8>,
    lines: Seq<Span>,
    idx: int,
    affinity: Affinity,
    clicks: int,
) -> (Selection, DragKindModel) {
    if clicks == 2 {
        let w = word_at(b, idx);
        (selection(w.start, w.end, Affinity::Downstream), DragKindModel::Word(w))
    } else if clicks == 3 {
        let l = line_of(lines, idx, affinity);
        (
            selection(
                l.start,
                l.end,
                if l.end == b.len() {
                    Affinity::Downstream
                } else {
                    Affinity::Upstream
                },
            ),
            DragKindModel::Line(l),
        )
    } else {
        (selection(idx, idx, affinity), DragKindModel::Char)
    }
}

/// A click: the byte and side it hits, whether it is close to the last one, and
/// when it comes.
#[derive(Clone, Copy)]
pub struct Click {
    pub idx: usize,
    pub affinity: Affinity,
    /// The pointer is where it was at the last click, give or take a little.
    pub near: bool,
    pub now: u64,
}

/// The number of a click in a multi-click: one to three.
pub open spec fn click_number(m: TextModel, click: Click, mods: Modifiers) -> int {
    let again = !mods.shift && click.near && (m.last_click matches Some(t) && (click.now < t
        || click.now - t <= MULTI_CLICK_NANOS));
    if !again {
        1
    } else if m.clicks + 1 < 3 {
        m.clicks + 1
    } else {
        3
    }
}

/// A click with these modifiers follows a link instead of placing the caret:
/// a plain one in view mode, one with the primary modifier in edit mode, one
/// with Alt in either.
pub open spec fn click_opens(mods: Modifiers, editing: bool) -> bool {
    ||| !editing && !mods.shift && !mods.alt
    ||| editing && primary_mod(mods) && !mods.shift && !mods.alt
    ||| mods.alt && !mods.shift && !primary_mod(mods)
}

/// There is a tag or a link to follow at `idx`.
pub open spec fn follows(m: TextModel, idx: int) -> bool {
    tag_under(m.doc.links, idx) is Some || link_under(m.doc.links, idx) is Some
}

/// The tag at `idx`, or else the link there, marked to be followed.
pub open spec fn followed(m: TextModel, idx: int) -> TextModel {
    if tag_under(m.doc.links, idx) is Some {
        TextModel { pending_tag: tag_under(m.doc.links, idx), ..m }
    } else {
        match link_under(m.doc.links, idx) {
            Some(l) => TextModel { pending_url: Some(l.url), ..m },
            None => m,
        }
    }
}

/// A click of a multi-click counted.
pub open spec fn counted(m: TextModel, click: Click, mods: Modifiers) -> TextModel {
    TextModel { clicks: click_number(m, click, mods), last_click: Some(click.now), ..m }
}

/// The primary selection stretched to a click, a drag by characters begun.
pub open spec fn extended(m: TextModel, click: Click) -> TextModel {
    let p = m.doc.sels.primary;
    if p < m.doc.sels.items.len() {
        let s = m.doc.sels.items[p];
        TextModel {
            drag: Some(DragModel { sel: p, kind: DragKindModel::Char }),
            ..m.selecting(
                SelectionSet {
                    items: m.doc.sels.items.update(
                        p,
                        Selection { head: click.idx, affinity: click.affinity, ..s },
                    ),
                    primary: p,
                },
            )
        }
    } else {
        m
    }
}

/// What a click hits selected, besides the other selections or in their place,
/// and a drag from there begun.
pub open spec fn unit_selected(m: TextModel, click: Click, adding: bool) -> TextModel {
    let unit = click_unit(m.doc.text, m.lines, click.idx as int, click.affinity, m.clicks);
    let items = if adding {
        m.doc.sels.items.push(unit.0)
    } else {
        seq![unit.0]
    };
    TextModel {
        drag: Some(DragModel { sel: items.len() - 1, kind: unit.1 }),
        ..m.selecting(SelectionSet { items, primary: items.len() - 1 })
    }
}

/// What pressing the mouse button makes of a text box.
pub open spec fn after_mouse_down(
    m: TextModel,
    click: Click,
    mods: Modifiers,
    editing: bool,
) -> TextModel {
    let broken = m.breaking();
    if click_opens(mods, editing) && follows(broken, click.idx as int) {
        followed(broken, click.idx as int)
    } else if mods.shift && !mods.alt {
        extended(counted(broken, click, mods), click)
    } else {
        unit_selected(counted(broken, click, mods), click, mods.alt)
    }
}

/// The ranges that a drag extends by are places in the text.
pub open spec fn drag_fits(m: TextModel) -> bool {
    m.drag matches Some(d) ==> {
        &&& 0 <= d.sel
        &&& match d.kind {
            DragKindModel::Char => true,
            DragKindModel::Word(w) => boundary(m.doc.text, w.start) && boundary(
                m.doc.text,
                w.end,
            ),
            DragKindModel::Line(l) => boundary(m.doc.text, l.start) && boundary(
                m.doc.text,
                l.end,
            ),
        }
    }
}

/// The selection that a drag to `idx` makes of `s`.
pub open spec fn dragged(
    m: TextModel,
    s: Selection,
    kind: DragKindModel,
    idx: usize,
    affinity: Affinity,
) -> Selection {
    match kind {
        DragKindModel::Char => Selection { anchor: s.anchor, head: idx, affinity },
        DragKindModel::Word(from) => {
            let hit = word_at(m.doc.text, idx as int);
            if hit.start >= from.start {
                selection(from.start, hit.end, Affinity::Downstream)
            } else {
                selection(from.end, hit.start, Affinity::Downstream)
            }
        },
        DragKindModel::Line(from) => {
            let hit = line_of(m.lines, idx as int, affinity);
            if hit.start >= from.start {
                selection(
                    from.start,
                    hit.end,
                    if hit.end == m.doc.text.len() {
                        Affinity::Downstream
                    } else {
                        Affinity::Upstream
                    },
                )
            } else {
                selection(from.end, hit.start, Affinity::Downstream)
            }
        },
    }
}

/// What dragging the pointer to `idx` makes of a text box.
pub open spec fn after_drag(m: TextModel, idx: usize, affinity: Affinity) -> TextModel {
    match m.drag {
        Some(d) if d.sel < m.doc.sels.items.len() => m.selecting(
            SelectionSet {
                items: m.doc.sels.items.update(
                    d.sel,
                    dragged(m, m.doc.sels.items[d.sel], d.kind, idx, affinity),
                ),
                primary: m.doc.sels.primary,
            },
        ),
        _ => m,
    }
}

/// What releasing the mouse button makes of a text box.
pub open spec fn after_mouse_up(m: TextModel) -> TextModel {
    if m.drag is Some {
        TextModel { drag: None, ..m.selecting(m.doc.sels.normalized()) }
    } else {
        m
    }
}

// ---------------------------------------------------------------------------
// Links and tags
// ---------------------------------------------------------------------------

/// The first link that covers the byte `idx`.
pub open spec fn link_under(links: Seq<Link>, idx: int) -> Option<Link> {
    let k = link_covering(links, idx, 0);
    if k < links.len() {
        Some(links[k])
    } else {
        None
    }
}

/// The tag that a link marks: none where it is no tag, covers a bare `#` or
/// names nothing.
pub open spec fn tag_named(l: Link) -> Option<Seq<u8>> {
    if is_tag_address(l.url) && l.end > l.start + 1 && tag_of_address(l.url).len() > 0 {
        Some(tag_of_address(l.url))
    } else {
        None
    }
}

/// The tag that covers the byte `idx`, by the first of the links that marks one
/// there.
pub open spec fn tag_under(links: Seq<Link>, idx: int) -> Option<Seq<u8>>
    decreases links.len(),
{
    if links.len() == 0 {
        None
    } else if links[0].start <= idx < links[0].end && tag_named(links[0]) is Some {
        tag_named(links[0])
    } else {
        tag_under(links.drop_first(), idx)
    }
}

/// `names` with `name` at its end, unless it is among them.
pub open spec fn with_name(names: Seq<Seq<u8>>, name: Seq<u8>) -> Seq<Seq<u8>> {
    if names.contains(name) {
        names
    } else {
        names.push(name)
    }
}

/// `names` and the tags that `links` mark up to `limit`, each once, in order.
pub open spec fn tags_into(names: Seq<Seq<u8>>, links: Seq<Link>, limit: int) -> Seq<Seq<u8>>
    decreases links.len(),
{
    if links.len() == 0 {
        names
    } else {
        let before = tags_into(names, links.drop_last(), limit);
        match tag_named(links.last()) {
            Some(name) if links.last().end <= limit => with_name(before, name),
            _ => before,
        }
    }
}

impl TextModel {
    /// Where the first paragraph ends.
    pub open spec fn heading_end(self) -> int {
        first_byte(self.doc.text, 10, 0)
    }

    /// The tags of a title.
    pub open spec fn heading_tags(self) -> Seq<Seq<u8>> {
        if self.force_heading {
            tags_into(Seq::empty(), self.doc.links, self.heading_end())
        } else {
            Seq::empty()
        }
    }

    /// The tags of a body, put behind `names`.
    pub open spec fn tags_behind(self, names: Seq<Seq<u8>>) -> Seq<Seq<u8>> {
        tags_into(names, self.doc.links, usize::MAX as int)
    }
}

/// A range that a link may be put on.
pub open spec fn linkable(text: Seq<u8>, start: int, end: int) -> bool {
    0 <= start < end <= text.len()
}

/// `links` with one on `start..end`, where that is a part of the text.
pub open spec fn with_link(text: Seq<u8>, links: Seq<Link>, start: int, end: int, url: Seq<u8>) -> Seq<
    Link,
> {
    if linkable(text, start, end) {
        links.push(Link { start, end, url })
    } else {
        links
    }
}

/// A range that a tag may be put on: it starts with `#`.
pub open spec fn taggable(text: Seq<u8>, start: int, end: int) -> bool {
    linkable(text, start, end) && text[start] == 35
}

/// `links` with a tag on `start..end`, where that is a part of the text that
/// starts with `#`.
pub open spec fn with_tag(text: Seq<u8>, links: Seq<Link>, start: int, end: int) -> Seq<Link> {
    if taggable(text, start, end) {
        links.push(Link { start, end, url: tag_scheme() + text.subrange(start + 1, end) })
    } else {
        links
    }
}

/// The range of a link that marks a tag.
pub open spec fn tag_span() -> spec_fn(Link) -> Option<Span> {
    |l: Link|
        if is_tag_address(l.url) {
            Some(Span { start: l.start, end: l.end })
        } else {
            None
        }
}

/// A link is no tag named `name`, or is none that can be seen.
pub open spec fn keeps_link(text: Seq<u8>, name: Seq<u8>) -> spec_fn(Link) -> bool {
    |l: Link| l.end > text.len() || l.start >= l.end || l.url != tag_scheme() + name
}

/// `links` without the tags named `name`.
pub open spec fn without_tag(text: Seq<u8>, links: Seq<Link>, name: Seq<u8>) -> Seq<Link> {
    links.filter(keeps_link(text, name))
}

/// Some link marks a tag.
pub open spec fn any_tag(links: Seq<Link>) -> bool {
    exists|i: int| 0 <= i < links.len() && is_tag_address((#[trigger] links[i]).url)
}

/// `links` with a tag on each of `found` that has a name.
pub open spec fn with_found_tags(text: Seq<u8>, links: Seq<Link>, found: Seq<Span>) -> Seq<Link>
    decreases found.len(),
{
    if found.len() == 0 {
        links
    } else {
        let before = with_found_tags(text, links, found.drop_last());
        let t = found.last();
        if t.end > t.start + 1 {
            with_tag(text, before, t.start, t.end)
        } else {
            before
        }
    }
}

/// The tags that the text spells, for a text box without committed tags.
pub open spec fn migrated(m: TextModel) -> TextModel {
    if any_tag(m.doc.links) {
        m
    } else {
        let found = if m.force_heading {
            trailing_tags(m.doc.text, m.heading_end())
        } else {
            inline_tags(m.doc.text, m.doc.text.len() as int)
        };
        m.linking(with_found_tags(m.doc.text, m.doc.links, found))
    }
}

/// Migrating tags twice is migrating them once.
pub proof fn migrating_tags_is_idempotent(m: TextModel)
    ensures
        migrated(migrated(m)) == migrated(m),
{
    if !any_tag(m.doc.links) {
        let found = if m.force_heading {
            trailing_tags(m.doc.text, m.heading_end())
        } else {
            inline_tags(m.doc.text, m.doc.text.len() as int)
        };
        lemma_found_tags(m.doc.text, m.doc.links, found);
        let once = migrated(m);
        if !any_tag(once.doc.links) {
            assert(once.doc.links == m.doc.links);
        }
        assert(once.heading_end() == m.heading_end());
    }
}

proof fn lemma_found_tags(text: Seq<u8>, links: Seq<Link>, found: Seq<Span>)
    ensures
        with_found_tags(text, links, found) == links || any_tag(
            with_found_tags(text, links, found),
        ),
    decreases found.len(),
{
    if found.len() > 0 {
        lemma_found_tags(text, links, found.drop_last());
        let before = with_found_tags(text, links, found.drop_last());
        let all = with_found_tags(text, links, found);
        let t = found.last();
        if t.end > t.start + 1 && taggable(text, t.start, t.end) {
            tag_addresses_name_their_tag(text.subrange(t.start + 1, t.end));
            assert(is_tag_address(all[all.len() - 1].url));
        } else {
            assert(all == before);
        }
    }
}

// ---------------------------------------------------------------------------
// Reading a text box
// ---------------------------------------------------------------------------

/// The text wrapped by a measure: where it is not empty, its lines, all of them
/// headings or none, and which of them are comments.
pub open spec fn after_wrap(m: TextModel, wide: spec_fn(int, int) -> bool) -> TextModel {
    let all = if m.doc.text.len() == 0 {
        Seq::empty()
    } else {
        wrapped_text(m.doc.text, 0, wide)
    };
    TextModel {
        lines: line_spans(all),
        headings: Seq::new(all.len(), |i: int| m.force_heading),
        comments: Seq::new(all.len(), |i: int| m.comment_coloring && all[i].comment),
        ..m
    }
}

/// The place a caret asked for at `idx` goes to.
pub open spec fn place_at(b: Seq<u8>, idx: int) -> int {
    snapped(
        b,
        0,
        if idx < b.len() {
            idx
        } else {
            b.len() as int
        },
    )
}

/// Every selection collapsed onto its caret.
pub open spec fn collapsed(m: TextModel) -> TextModel {
    m.selecting(
        SelectionSet {
            items: Seq::new(
                m.doc.sels.items.len(),
                |i: int|
                    Selection { anchor: m.doc.sels.items[i].head, ..m.doc.sels.items[i] },
            ),
            primary: m.doc.sels.primary,
        },
    )
}

/// Collapsing selections keeps a text box well formed.
pub proof fn lemma_collapsed_wf(m: TextModel)
    requires
        m.wf(),
    ensures
        collapsed(m).wf(),
{
    assert forall|i: int| 0 <= i < m.doc.sels.items.len() implies placed(
        m.doc.text,
        #[trigger] collapsed(m).doc.sels.items[i],
    ) by {
        assert(placed(m.doc.text, m.doc.sels.items[i]));
    }
}

/// The whole text selected.
pub open spec fn all_selected(m: TextModel) -> TextModel {
    m.selecting(
        SelectionSet {
            items: seq![selection(0, m.doc.text.len() as int, Affinity::Downstream)],
            primary: 0,
        },
    )
}

/// Anchor and caret of the primary selection.
pub open spec fn primary_ends(m: TextModel) -> Option<(usize, usize)> {
    if 0 <= m.doc.sels.primary < m.doc.sels.items.len() {
        Some(
            (
                m.doc.sels.items[m.doc.sels.primary].anchor,
                m.doc.sels.items[m.doc.sels.primary].head,
            ),
        )
    } else {
        None
    }
}

/// The visual line of the primary caret.
pub open spec fn primary_line(m: TextModel) -> int {
    if 0 <= m.doc.sels.primary < m.doc.sels.items.len() {
        let s = m.doc.sels.items[m.doc.sels.primary];
        caret_place(m.lines, s.head as int, s.affinity).0
    } else {
        0
    }
}

/// The number of visual lines; an unwrapped text counts as one.
pub open spec fn line_count(m: TextModel) -> int {
    if m.lines.len() > 1 {
        m.lines.len() as int
    } else {
        1
    }
}

// ---------------------------------------------------------------------------
// Replacing, pasting, cutting
// ---------------------------------------------------------------------------

impl TextModel {
    /// One edit at `now`, recorded for undo.
    pub open spec fn edited_at(self, e: EditModel, now: u64) -> TextModel {
        TextModel { doc: self.doc.edited(e), ..self.recorded(now).unwrapped() }
    }

    /// A range replaced by a text, the caret behind it.
    pub open spec fn replaced_range(self, e: EditModel, now: u64) -> TextModel {
        self.edited_at(e, now).selecting(
            SelectionSet::at((e.start + e.with.len()) as usize),
        ).breaking()
    }

    /// A range replaced by a text that links to `url`.
    pub open spec fn replaced_by_link(self, e: EditModel, url: Seq<u8>, now: u64) -> TextModel {
        let r = self.replaced_range(e, now);
        if e.with.len() > 0 {
            r.linking(
                r.doc.links.push(Link { start: e.start, end: e.start + e.with.len(), url }),
            )
        } else {
            r
        }
    }

    /// A range replaced by a text that is committed as a tag, where it starts
    /// with `#`.
    pub open spec fn replaced_by_tag(self, e: EditModel, now: u64) -> TextModel {
        let r = self.replaced_range(e, now);
        r.linking(with_tag(r.doc.text, r.doc.links, e.start, e.start + e.with.len()))
    }

    /// Another text, the caret at its start; links that reach beyond it are
    /// gone.
    pub open spec fn replaced_text(self, text: Seq<u8>, now: u64) -> TextModel {
        TextModel {
            doc: Doc {
                text,
                sels: SelectionSet::at(0),
                scale: self.doc.scale,
                links: self.doc.links.filter(|l: Link| l.end <= text.len()),
            },
            ..self.recorded(now).unwrapped()
        }.breaking()
    }

    /// The primary selection cut out.
    pub open spec fn cut(self, now: u64) -> TextModel {
        match primary_ends(self) {
            Some((a, h)) if a != h => {
                let s = self.doc.sels.items[self.doc.sels.primary];
                self.edited_at(
                    EditModel { start: s.lo(), end: s.hi(), with: Seq::empty() },
                    now,
                ).breaking()
            },
            _ => self,
        }
    }

    /// What the primary selection holds.
    pub open spec fn primary_text(self) -> Seq<u8> {
        match primary_ends(self) {
            Some((a, h)) => {
                let s = self.doc.sels.items[self.doc.sels.primary];
                self.doc.text.subrange(s.lo(), s.hi())
            },
            None => Seq::empty(),
        }
    }

    /// The parts of the links that lie in the primary selection, counted from
    /// its start.
    pub open spec fn primary_links(self) -> Seq<Link> {
        let s = self.doc.sels.items[self.doc.sels.primary];
        self.doc.links.filter_map(|l: Link| clipped(l, s.lo(), s.hi()))
    }

    /// The text with more behind it, and links onto that, counted from its
    /// start.
    pub open spec fn appended(self, more: Seq<u8>, extra: Seq<Link>) -> TextModel {
        let n = self.doc.text.len();
        TextModel {
            doc: Doc {
                text: self.doc.text + more,
                links: self.doc.links + extra.map_values(
                    |l: Link| Link { start: l.start + n, end: l.end + n, url: l.url },
                ),
                ..self.doc
            },
            ..self.unwrapped()
        }
    }

    /// The links that end in front of `at`.
    pub open spec fn links_before(self, at: int) -> Seq<Link> {
        self.doc.links.filter(|l: Link| l.end <= at)
    }

    /// The links that start behind `at`, counted from there.
    pub open spec fn links_after(self, at: int) -> Seq<Link> {
        self.doc.links.filter_map(
            |l: Link|
                if l.end > at && l.start >= at {
                    Some(Link { start: l.start - at, end: l.end - at, url: l.url })
                } else {
                    None
                },
        )
    }
}

/// The part of a link between `lo` and `hi`, counted from `lo`.
pub open spec fn clipped(l: Link, lo: int, hi: int) -> Option<Link> {
    let start = if l.start < lo {
        lo
    } else {
        l.start
    };
    let end = if l.end > hi {
        hi
    } else {
        l.end
    };
    if start < end {
        Some(Link { start: start - lo, end: end - lo, url: l.url })
    } else {
        None
    }
}

/// Where the text pasted over each of `v`, ordered by start, lands: its start,
/// moved by what the pastes in front of it put in (`gained`) and took out
/// (`lost`).
pub open spec fn landings(v: Seq<Selection>, n: int, gained: int, lost: int) -> Seq<int>
    decreases v.len(),
{
    if v.len() == 0 {
        Seq::empty()
    } else {
        let at = v[0].lo() + gained - lost;
        seq![
            if at > 0 {
                at
            } else {
                0
            },
        ] + landings(v.drop_first(), n, gained + n, lost + v[0].hi() - v[0].lo())
    }
}

/// `links` with those of `more` that lie in a text of length `n`, counted from
/// `base`.
pub open spec fn with_links_at(links: Seq<Link>, base: int, n: int, more: Seq<Link>) -> Seq<Link>
    decreases more.len(),
{
    if more.len() == 0 {
        links
    } else {
        let before = with_links_at(links, base, n, more.drop_last());
        let l = more.last();
        if 0 <= l.start < l.end <= n {
            before.push(Link { start: base + l.start, end: base + l.end, url: l.url })
        } else {
            before
        }
    }
}

/// `links` with `more` at each of `bases` where a text of length `n` ends
/// within `len`.
pub open spec fn with_links_at_all(
    links: Seq<Link>,
    bases: Seq<int>,
    n: int,
    len: int,
    more: Seq<Link>,
) -> Seq<Link>
    decreases bases.len(),
{
    if bases.len() == 0 {
        links
    } else {
        let before = with_links_at_all(links, bases.drop_last(), n, len, more);
        if bases.last() + n <= len {
            with_links_at(before, bases.last(), n, more)
        } else {
            before
        }
    }
}

impl TextModel {
    /// `s` pasted over every selection, with `more` as links onto each copy.
    pub open spec fn pasted(self, s: Seq<u8>, more: Seq<Link>, now: u64) -> TextModel {
        if s.len() == 0 {
            self
        } else {
            let r = self.applying(self.edits(replacing(s)), now);
            let at = landings(sort_by_start(self.doc.sels.items), s.len() as int, 0, 0);
            r.linking(
                with_links_at_all(
                    r.doc.links,
                    at,
                    s.len() as int,
                    r.doc.text.len() as int,
                    more,
                ),
            ).breaking()
        }
    }

    /// What is selected first, with its links; nothing where it is empty.
    pub open spec fn picked(self) -> Option<(Seq<u8>, Seq<Link>)> {
        if self.primary_text().len() > 0 {
            Some((self.primary_text(), self.primary_links()))
        } else {
            None
        }
    }

    /// A fresh text box that is drawn as this one is, at another zoom.
    pub open spec fn cached(self, scale: u32) -> TextModel {
        let text = self.doc.text;
        let fresh = TextModel::fresh(text);
        TextModel {
            doc: Doc {
                scale,
                links: self.doc.links.filter(|l: Link| linkable(text, l.start, l.end)),
                ..fresh.doc
            },
            force_heading: self.force_heading,
            ..fresh
        }
    }
}

/// The offsets of `links` still fit the machine once `n` has been put in front
/// of them.
pub open spec fn links_room(links: Seq<Link>, n: int) -> bool {
    forall|i: int|
        #![trigger links[i]]
        0 <= i < links.len() ==> 0 <= links[i].start && links[i].start + n <= usize::MAX && 0
            <= links[i].end && links[i].end + n <= usize::MAX
}

/// A boundary is the place that a caret asked for there goes to.
pub proof fn lemma_place_at(b: Seq<u8>, i: int)
    requires
        boundary(b, i),
    ensures
        place_at(b, i) == i,
{
}

/// One edit keeps a text box well formed, and so does a caret behind it.
pub proof fn lemma_edited_at_wf(m: TextModel, e: EditModel, now: u64)
    requires
        m.wf(),
        edit_fits(m.doc.text, e),
        m.doc.text.len() + e.with.len() <= usize::MAX,
    ensures
        m.edited_at(e, now).wf(),
        m.edited_at(e, now).doc.text == spliced(m.doc.text, e.start, e.end, e.with),
        m.replaced_range(e, now).wf(),
        boundary(m.edited_at(e, now).doc.text, e.start + e.with.len()),
        boundary(m.edited_at(e, now).doc.text, e.start),
{
    lemma_edited_wf(m.doc, e);
    lemma_recorded_wf(m, now);
    lemma_splice_boundaries(m.doc.text, e.start, e.end, e.with);
    lemma_splice_valid(m.doc.text, e.start, e.end, e.with);
    let at = SelectionSet::at((e.start + e.with.len()) as usize);
    assert(placed(m.edited_at(e, now).doc.text, at.items[0]));
}

// ---------------------------------------------------------------------------
// Drawing
// ---------------------------------------------------------------------------

/// The part of a line, counted from its start, that a selection highlights.
#[verifier::ext_equal]
pub struct Segment {
    pub line: int,
    pub start: int,
    pub end: int,
}

/// The segment that the selection from `lo` to `hi` highlights on line `k`.
pub open spec fn highlight(m: TextModel, lo: int, hi: int, k: int) -> Option<Segment> {
    let line = m.lines[k];
    let seen = visible_end(m.doc.text, line);
    let from = if lo < line.start {
        line.start
    } else {
        lo
    };
    let s = if from < seen {
        from
    } else {
        seen
    };
    let e = if hi < seen {
        hi
    } else {
        seen
    };
    if s < e {
        Some(Segment { line: k, start: s - line.start, end: e - line.start })
    } else {
        None
    }
}

/// The segments that a selection highlights on the first `k` lines.
pub open spec fn highlights(m: TextModel, lo: int, hi: int, k: int) -> Seq<Segment>
    decreases k,
{
    if k <= 0 {
        Seq::empty()
    } else {
        match highlight(m, lo, hi, k - 1) {
            Some(x) => highlights(m, lo, hi, k - 1).push(x),
            None => highlights(m, lo, hi, k - 1),
        }
    }
}

/// The segments that the first `n` selections highlight; carets highlight none.
pub open spec fn all_highlights(m: TextModel, n: int) -> Seq<Segment>
    decreases n,
{
    if n <= 0 {
        Seq::empty()
    } else {
        let s = m.doc.sels.items[n - 1];
        if s.anchor == s.head {
            all_highlights(m, n - 1)
        } else {
            all_highlights(m, n - 1) + highlights(m, s.lo(), s.hi(), m.lines.len() as int)
        }
    }
}

/// Where a caret is drawn: its line, and how much of the line is in front of
/// it.
pub open spec fn caret_mark(m: TextModel, s: Selection) -> (int, int) {
    let at = caret_place(m.lines, s.head as int, s.affinity);
    if m.lines.len() == 0 {
        (0, 0)
    } else {
        let line = m.lines[at.0];
        let seen = visible_end(m.doc.text, line);
        (
            at.0,
            if line.start + at.1 < seen {
                at.1
            } else {
                seen - line.start
            },
        )
    }
}

/// How a visual line is drawn.
#[verifier::ext_equal]
pub struct LineModel {
    /// What is drawn of it.
    pub seen: Span,
    pub heading: bool,
    pub comment: bool,
    pub runs: Seq<RunModel>,
}

/// How line `k` is drawn.
pub open spec fn drawn_line(m: TextModel, k: int) -> LineModel {
    let seen = Span { start: m.lines[k].start, end: visible_end(m.doc.text, m.lines[k]) };
    LineModel {
        seen,
        heading: m.headings[k],
        comment: m.comments[k],
        runs: runs_from(m.doc.links, seen.start, seen.end),
    }
}

/// How a text box is drawn.
#[verifier::ext_equal]
pub struct DrawModel {
    pub lines: Seq<LineModel>,
    pub highlights: Seq<Segment>,
    pub carets: Seq<(int, int)>,
}

/// How a text box is drawn: selections only where it has the focus, carets only
/// where they are to be shown.
pub open spec fn drawn(m: TextModel, focused: bool, show_caret: bool) -> DrawModel {
    DrawModel {
        lines: Seq::new(m.lines.len(), |k: int| drawn_line(m, k)),
        highlights: if focused {
            all_highlights(m, m.doc.sels.items.len() as int)
        } else {
            Seq::empty()
        },
        carets: if show_caret {
            Seq::new(m.doc.sels.items.len(), |i: int| caret_mark(m, m.doc.sels.items[i]))
        } else {
            Seq::empty()
        },
    }
}

/// Where a pointer hits a line, looked for from the character at `prev` on:
/// `reaches(start, o)` tells whether the line up to `o` reaches the pointer,
/// `nearer(p, o)` whether the pointer is nearer to `p` than to `o`.
pub open spec fn hit_from(
    b: Seq<u8>,
    start: int,
    seen: int,
    prev: int,
    reaches: spec_fn(int, int) -> bool,
    nearer: spec_fn(int, int) -> bool,
) -> int
    decreases seen - prev,
{
    let off = next_boundary(b, prev);
    if off >= seen || off <= prev {
        if nearer(prev, seen) {
            prev
        } else {
            seen
        }
    } else if reaches(start, off) {
        if nearer(prev, off) {
            prev
        } else {
            off
        }
    } else {
        hit_from(b, start, seen, off, reaches, nearer)
    }
}

/// The byte and side that a pointer on line `k` hits.
pub open spec fn hit(
    m: TextModel,
    k: int,
    reaches: spec_fn(int, int) -> bool,
    nearer: spec_fn(int, int) -> bool,
) -> (int, Affinity) {
    if m.lines.len() == 0 {
        (0, Affinity::Downstream)
    } else {
        let line = m.lines[k];
        let idx = hit_from(
            m.doc.text,
            line.start,
            visible_end(m.doc.text, line),
            line.start,
            reaches,
            nearer,
        );
        (idx, affinity_of_hit(m.lines, k, idx))
    }
}

/// Where a pointer hits is a place in the line.
pub proof fn lemma_hit(
    b: Seq<u8>,
    start: int,
    seen: int,
    prev: int,
    reaches: spec_fn(int, int) -> bool,
    nearer: spec_fn(int, int) -> bool,
)
    requires
        boundary(b, prev),
        boundary(b, seen),
        prev <= seen,
    ensures
        boundary(b, hit_from(b, start, seen, prev, reaches, nearer)),
        prev <= hit_from(b, start, seen, prev, reaches, nearer) <= seen,
    decreases seen - prev,
{
    let off = next_boundary(b, prev);
    lemma_next_boundary(b, prev);
    if off < seen && off > prev && !reaches(start, off) {
        lemma_hit(b, start, seen, off, reaches, nearer);
    }
}

/// The first of the first `n` bands, from `k` on, that the pointer is above the
/// bottom of; the last where there is none. `above(k)` tells whether the pointer
/// is above the bottom of band `k`.
pub open spec fn band_from(n: int, k: int, above: spec_fn(int) -> bool) -> int
    decreases n - k,
{
    if k + 1 >= n || above(k) {
        k
    } else {
        band_from(n, k + 1, above)
    }
}

/// A visual line that starts a paragraph.
pub open spec fn starts_paragraph(m: TextModel, k: int) -> bool {
    let start = m.lines[k].start;
    start == 0 || (start <= m.doc.text.len() && m.doc.text[start - 1] == 10)
}

/// The lines, of the first `k`, that start a paragraph, with whether they are
/// headings.
pub open spec fn paragraph_starts(m: TextModel, k: int) -> Seq<(int, bool)>
    decreases k,
{
    if k <= 0 {
        Seq::empty()
    } else if starts_paragraph(m, k - 1) {
        paragraph_starts(m, k - 1).push((k - 1, m.headings[k - 1]))
    } else {
        paragraph_starts(m, k - 1)
    }
}

} // verus!
