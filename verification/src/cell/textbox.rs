//! `TextBox`: the editable text that backs every body type. It owns the text,
//! its selections, its links, the visual lines, the drag state and the undo
//! stacks.
//!
//! Where a text is wrapped depends on the width of its glyphs, so the host wraps
//! it again (`rewrap`) whenever the text has changed; until then a text box has
//! no visual lines. Moments are given by the host too, as nanoseconds on a clock
//! that never runs backwards.
use std::ops::Range;
use vstd::prelude::*;
use vstd::utf8::*;

use crate::text;
use crate::cell::common::{
    duplicate_links, ends_satisfy, is_kept_tag_url, is_tag_address, lemma_normalized_keeps,
    lemma_sort_keeps, line_edge_mod, primary_mod, sort_by_start, sorted_by_start,
    tag_name_from_url, tag_scheme, tag_url, transform_index, transform_index_closed_end, word_mod,
    Affinity, Edit, EditModel, Key, KeyEvent, Link, LinkSpan, Modifiers, Selection, Selections,
    SelectionSet, TagSpan,
};
use crate::cell::model::{
    after_drag, after_key, after_mouse_down, after_mouse_up, after_wrap, all_highlights,
    all_selected, band_from, caret_mark, click_unit, clipped, collapsed, control, counted,
    DEFAULT_SCALE, deletion, drag_fits, dragged, drawn, drawn_line, edge_stepping, edit_fits,
    edited_link, edited_links, edited_selection, edits_fit, erasing_back, erasing_forward,
    erasing_word_back, erasing_word_forward, extended, followed, follows, gather, highlight,
    highlights, hit, hit_from, inserted, keeps_link, key_edits, landings, lemma_applying_wf,
    lemma_edited_at_wf, lemma_edited_links_room, lemma_edited_wf, lemma_gather_replacing,
    lemma_hit, lemma_insert_back_at, lemma_inserted, lemma_moves_wf, lemma_place_at,
    lemma_recorded_wf, lemma_right_to_left, lemma_snapped, line_count, line_stepping, link_under,
    linkable, links_natural, links_room, migrated, MULTI_CLICK_NANOS, paragraph_starts, place_at,
    placed, primary_ends, primary_line, printable, replacing, right_to_left, selection, snapped,
    stepping, tag_named, tag_span, tag_under, tags_into, TEXTBOX_COALESCE_NANOS, TEXTBOX_UNDO_CAP,
    unit_selected, with_found_tags, with_link, with_links_at, with_links_at_all, with_name,
    with_tag, without_tag, word_stepping, Click, Doc, DragKindModel, DragModel, DrawModel,
    LineModel, Segment, TextModel,
};
use crate::cell::urls::{detect_urls, url_links};
use crate::cell::wrap::{
    caret_place, copy_range, decided, find_line_at, find_word_at, find_word_left_of,
    find_word_right_of, hit_affinity, lemma_caret_place, lemma_chained_lines, lemma_inline_tags,
    lemma_next_boundary, lemma_trailing_tags, lemma_word_bounds, lemma_wrapped_text_chained,
    line_runs, lines_forward, link_covering, locate_caret, measure, next_boundary,
    next_char_boundary, parse_heading_tags, parse_inline_tags, prev_char_boundary, span, spans,
    step_horizontal, styled, trim_nl_end, wrap_text_styled, wrapped_text, Run, Span,
};
use crate::text::{
    blank, boundary, first_byte, lemma_after_ascii, lemma_ascii_is_boundary, lemma_boundary_ends,
    lemma_first_byte, lemma_utf8_valid, utf8, views,
};

verus! {

/// What a drag extends by.
enum DragKind {
    Char,
    Word(Range<usize>),
    Line(Range<usize>),
}

impl View for DragKind {
    type V = DragKindModel;

    closed spec fn view(&self) -> DragKindModel {
        match self {
            DragKind::Char => DragKindModel::Char,
            DragKind::Word(r) => DragKindModel::Word(span(*r)),
            DragKind::Line(r) => DragKindModel::Line(span(*r)),
        }
    }
}

impl DragKind {
    fn duplicate(&self) -> (k: DragKind)
        ensures
            k@ == self@,
    {
        match self {
            DragKind::Char => DragKind::Char,
            DragKind::Word(r) => DragKind::Word(copy_range(r)),
            DragKind::Line(r) => DragKind::Line(copy_range(r)),
        }
    }
}

/// A mouse drag in progress.
struct DragState {
    sel_idx: usize,
    kind: DragKind,
}

impl View for DragState {
    type V = DragModel;

    closed spec fn view(&self) -> DragModel {
        DragModel { sel: self.sel_idx as int, kind: self.kind@ }
    }
}

/// The bytes of an optional text.
pub open spec fn optional_bytes(s: Option<String>) -> Option<Seq<u8>> {
    match s {
        Some(t) => Some(utf8(t@)),
        None => None,
    }
}

/// A copy of the document state of a text box: text, selections, zoom and links.
/// View-only state is left out.
pub struct TextBoxSnapshot {
    pub text: String,
    pub sels: Selections,
    pub font_scale: u32,
    pub links: Vec<LinkSpan>,
}

impl View for TextBoxSnapshot {
    type V = Doc;

    open spec fn view(&self) -> Doc {
        Doc {
            text: utf8(self.text@),
            sels: self.sels@,
            scale: self.font_scale,
            links: views(self.links@),
        }
    }
}

impl TextBoxSnapshot {
    /// A copy of the snapshot.
    pub fn duplicate(&self) -> (s: TextBoxSnapshot)
        ensures
            s@ == self@,
    {
        TextBoxSnapshot {
            text: self.text.clone(),
            sels: self.sels.duplicate(),
            font_scale: self.font_scale,
            links: duplicate_links(&self.links),
        }
    }
}

/// One editable text.
pub struct TextBox {
    text: String,
    sels: Selections,
    body_lines: Vec<Range<usize>>,
    line_is_heading: Vec<bool>,
    line_is_comment: Vec<bool>,
    mouse_drag: Option<DragState>,
    last_click_time: Option<u64>,
    click_count: u8,
    font_scale: u32,
    links: Vec<LinkSpan>,
    force_heading: bool,
    enable_comment_coloring: bool,
    pending_link_url: Option<String>,
    pending_tag_name: Option<String>,
    undo_stack: Vec<TextBoxSnapshot>,
    redo_stack: Vec<TextBoxSnapshot>,
    last_edit_at: Option<u64>,
    coalesce_break: bool,
}

impl View for TextBox {
    type V = TextModel;

    closed spec fn view(&self) -> TextModel {
        TextModel {
            doc: Doc {
                text: utf8(self.text@),
                sels: self.sels@,
                scale: self.font_scale,
                links: views(self.links@),
            },
            lines: spans(self.body_lines@),
            headings: self.line_is_heading@,
            comments: self.line_is_comment@,
            drag: match self.mouse_drag {
                Some(d) => Some(d@),
                None => None,
            },
            last_click: self.last_click_time,
            clicks: self.click_count as int,
            force_heading: self.force_heading,
            comment_coloring: self.enable_comment_coloring,
            pending_url: optional_bytes(self.pending_link_url),
            pending_tag: optional_bytes(self.pending_tag_name),
            undo: views(self.undo_stack@),
            redo: views(self.redo_stack@),
            last_edit: self.last_edit_at,
            break_next: self.coalesce_break,
        }
    }
}

proof fn lemma_links_natural(v: Seq<LinkSpan>)
    ensures
        links_natural(views(v)),
{
}

proof fn lemma_at_start(text: Seq<u8>)
    requires
        valid_utf8(text),
    ensures
        SelectionSet::at(0).wf(),
        placed(text, SelectionSet::at(0).items[0]),
{
    lemma_boundary_ends(text);
}

impl TextBox {
    // -----------------------------------------------------------------------
    // Making and reading
    // -----------------------------------------------------------------------

    /// A text box over `initial_text` with the caret at its start.
    pub fn new(initial_text: String) -> (t: TextBox)
        ensures
            t@ == TextModel::fresh(utf8(initial_text@)),
            t@.wf(),
    {
        proof {
            lemma_utf8_valid(initial_text@);
            lemma_at_start(utf8(initial_text@));
        }
        let t = TextBox {
            text: initial_text,
            sels: Selections::single_caret(0),
            body_lines: Vec::new(),
            line_is_heading: Vec::new(),
            line_is_comment: Vec::new(),
            mouse_drag: None,
            last_click_time: None,
            click_count: 0,
            font_scale: DEFAULT_SCALE,
            links: Vec::new(),
            force_heading: false,
            enable_comment_coloring: false,
            pending_link_url: None,
            pending_tag_name: None,
            undo_stack: Vec::new(),
            redo_stack: Vec::new(),
            last_edit_at: None,
            coalesce_break: false,
        };
        assert(t@ =~= TextModel::fresh(utf8(t.text@)));
        t
    }

    /// Whether the last press of the mouse button marked an address to be
    /// followed.
    pub fn has_pending_link(&self) -> (r: bool)
        ensures
            r == (self@.pending_url is Some),
    {
        self.pending_link_url.is_some()
    }

    /// Takes the link that the last click followed.
    pub fn take_pending_link_url(&mut self) -> (url: Option<String>)
        ensures
            optional_bytes(url) == old(self)@.pending_url,
            final(self)@ == (TextModel { pending_url: None, ..old(self)@ }),
    {
        self.pending_link_url.take()
    }

    /// Whether the last press of the mouse button marked a tag to be followed.
    pub fn has_pending_tag(&self) -> (r: bool)
        ensures
            r == (self@.pending_tag is Some),
    {
        self.pending_tag_name.is_some()
    }

    /// Takes the tag that the last click followed.
    pub fn take_pending_tag_name(&mut self) -> (name: Option<String>)
        ensures
            optional_bytes(name) == old(self)@.pending_tag,
            final(self)@ == (TextModel { pending_tag: None, ..old(self)@ }),
    {
        self.pending_tag_name.take()
    }

    /// The text.
    pub fn text(&self) -> (t: &str)
        ensures
            utf8(t@) == self@.doc.text,
    {
        self.text.as_str()
    }

    /// The links, committed tags among them.
    pub fn links(&self) -> (l: &[LinkSpan])
        ensures
            views(l@) == self@.doc.links,
    {
        self.links.as_slice()
    }

    /// The zoom factor that the host set.
    pub fn font_scale(&self) -> (s: u32)
        ensures
            s == self@.doc.scale,
    {
        self.font_scale
    }

    /// Sets the zoom factor; lines wrapped at another are dropped.
    pub fn set_font_scale(&mut self, scale: u32)
        requires
            old(self)@.wf(),
        ensures
            final(self)@ == (if old(self)@.doc.scale == scale {
                old(self)@
            } else {
                TextModel {
                    doc: Doc { scale, ..old(self)@.doc },
                    ..old(self)@.unwrapped()
                }
            }),
            final(self)@.wf(),
    {
        if self.font_scale != scale {
            self.font_scale = scale;
            self.drop_lines();
        }
    }

    fn drop_lines(&mut self)
        ensures
            final(self)@ == old(self)@.unwrapped(),
    {
        self.body_lines = Vec::new();
        self.line_is_heading = Vec::new();
        self.line_is_comment = Vec::new();
        assert(self@ =~= old(self)@.unwrapped());
    }

    /// Makes this the title of a cell: every line is a heading, and trailing
    /// tags are the cell's.
    pub fn set_force_heading(&mut self, on: bool)
        requires
            old(self)@.wf(),
        ensures
            final(self)@ == (if old(self)@.force_heading == on {
                old(self)@
            } else {
                TextModel { force_heading: on, ..old(self)@.unwrapped() }
            }),
            final(self)@.wf(),
    {
        if self.force_heading != on {
            self.force_heading = on;
            self.drop_lines();
        }
    }

    /// Whether paragraphs that start with `#` are drawn as comments.
    pub fn set_enable_comment_coloring(&mut self, on: bool)
        requires
            old(self)@.wf(),
        ensures
            final(self)@ == (if old(self)@.comment_coloring == on {
                old(self)@
            } else {
                TextModel { comment_coloring: on, ..old(self)@.unwrapped() }
            }),
            final(self)@.wf(),
    {
        if self.enable_comment_coloring != on {
            self.enable_comment_coloring = on;
            self.drop_lines();
        }
    }

    /// Whether the text is blank.
    pub fn is_empty(&self) -> (r: bool)
        ensures
            r == blank(self@.doc.text),
    {
        text::is_blank(self.text.as_str())
    }

    /// Wraps the text anew. `too_wide(a, b)` tells whether `text[a..b]` is wider
    /// than the text box in the font that it is drawn in.
    pub fn rewrap<F: Fn(usize, usize) -> bool>(&mut self, too_wide: &F)
        requires
            old(self)@.wf(),
            decided(*too_wide),
        ensures
            final(self)@ == after_wrap(old(self)@, measure(*too_wide)),
            final(self)@.wf(),
    {
        let ghost b = utf8(self.text@);
        let ghost before = self@;
        let (lines, headings, comments) = wrap_text_styled(
            self.text.as_str(),
            too_wide,
            self.force_heading,
            self.enable_comment_coloring,
        );
        self.body_lines = lines;
        self.line_is_heading = headings;
        self.line_is_comment = comments;
        proof {
            let m = after_wrap(before, measure(*too_wide));
            lemma_utf8_valid(self.text@);
            lemma_boundary_ends(b);
            if b.len() > 0 {
                lemma_wrapped_text_chained(b, 0, measure(*too_wide));
                let all = wrapped_text(b, 0, measure(*too_wide));
                if self.enable_comment_coloring {
                    assert forall|i: int| 0 <= i < comments@.len() implies comments@[i]
                        == all[i].comment by {
                        assert(styled(lines@, comments@)[i] == all[i]);
                    }
                }
                assert(spans(lines@).len() == all.len());
                assert(self@.comments =~= m.comments);
                assert(self@.headings =~= m.headings);
            } else {
                assert(spans(lines@) =~= Seq::<Span>::empty());
                assert(self@.comments =~= m.comments);
                assert(self@.headings =~= m.headings);
            }
            assert(self@ =~= m);
        }
    }

    // -----------------------------------------------------------------------
    // Selections
    // -----------------------------------------------------------------------

    /// Puts one caret at `idx`, or in front of the character that `idx` cuts, or
    /// at the end of the text.
    pub fn set_caret_at(&mut self, idx: usize)
        requires
            old(self)@.wf(),
        ensures
            final(self)@ == old(self)@.selecting(
                SelectionSet::at(place_at(old(self)@.doc.text, idx as int) as usize),
            ),
            final(self)@.wf(),
    {
        let i: usize = self.snap(idx);
        let ghost before = self@;
        self.sels = Selections::single_caret(i);
        assert(self@ =~= before.selecting(SelectionSet::at(i)));
    }

    fn snap(&self, idx: usize) -> (r: usize)
        ensures
            r == place_at(self@.doc.text, idx as int),
            boundary(self@.doc.text, r as int),
    {
        let ghost b = utf8(self.text@);
        let n: usize = text::len(self.text.as_str());
        let mut i: usize = if idx < n {
            idx
        } else {
            n
        };
        let ghost from = i as int;
        proof {
            lemma_utf8_valid(self.text@);
            lemma_boundary_ends(b);
            lemma_snapped(b, 0, from);
        }
        while i > 0 && !text::is_boundary(self.text.as_str(), i)
            invariant
                b == utf8(self.text@),
                snapped(b, 0, from) == snapped(b, 0, i as int),
            decreases i,
        {
            i -= 1;
        }
        i
    }

    /// Selects from `anchor` to `head`, both taken to the nearest boundary at or
    /// in front of them.
    pub fn select_range(&mut self, anchor: usize, head: usize)
        requires
            old(self)@.wf(),
        ensures
            final(self)@ == old(self)@.selecting(
                SelectionSet {
                    items: seq![
                        selection(
                            place_at(old(self)@.doc.text, anchor as int),
                            place_at(old(self)@.doc.text, head as int),
                            Affinity::Downstream,
                        ),
                    ],
                    primary: 0,
                },
            ),
            final(self)@.wf(),
    {
        let a: usize = self.snap(anchor);
        let h: usize = self.snap(head);
        let ghost before = self@;
        let mut items: Vec<Selection> = Vec::new();
        items.push(Selection { anchor: a, head: h, affinity: Affinity::Downstream });
        self.sels = Selections { items, primary: 0 };
        assert(self@ =~= before.selecting(
            SelectionSet {
                items: seq![selection(a as int, h as int, Affinity::Downstream)],
                primary: 0,
            },
        ));
    }

    /// Whether any selection is not collapsed.
    pub fn has_selection(&self) -> (r: bool)
        ensures
            r == self@.has_selection(),
    {
        let mut i: usize = 0;
        while i < self.sels.items.len()
            invariant
                i <= self.sels.items.len(),
                forall|j: int|
                    0 <= j < i ==> (#[trigger] self@.doc.sels.items[j]).anchor
                        == self@.doc.sels.items[j].head,
            decreases self.sels.items.len() - i,
        {
            assert(self@.doc.sels.items[i as int] == self.sels.items@[i as int]);
            if !self.sels.items[i].is_collapsed() {
                return true;
            }
            i += 1;
        }
        false
    }

    /// Collapses every selection onto its caret.
    pub fn clear_selection(&mut self)
        requires
            old(self)@.wf(),
        ensures
            final(self)@ == collapsed(old(self)@),
            final(self)@.wf(),
    {
        let ghost before = self@;
        let mut i: usize = 0;
        while i < self.sels.items.len()
            invariant
                before.wf(),
                i <= self.sels.items.len(),
                self@ == (TextModel {
                    doc: Doc {
                        sels: SelectionSet { items: self.sels.items@, ..before.doc.sels },
                        ..before.doc
                    },
                    ..before
                }),
                self.sels.items@.len() == before.doc.sels.items.len(),
                forall|j: int|
                    0 <= j < i ==> self.sels.items@[j] == (Selection {
                        anchor: before.doc.sels.items[j].head,
                        ..before.doc.sels.items[j]
                    }),
                forall|j: int|
                    i <= j < self.sels.items@.len() ==> self.sels.items@[j]
                        == before.doc.sels.items[j],
            decreases self.sels.items.len() - i,
        {
            let s: Selection = self.sels.items[i];
            self.sels.items.set(
                i,
                Selection { anchor: s.head, head: s.head, affinity: s.affinity },
            );
            i += 1;
            assert(self@ =~= TextModel {
                doc: Doc {
                    sels: SelectionSet { items: self.sels.items@, ..before.doc.sels },
                    ..before.doc
                },
                ..before
            });
        }
        proof {
            assert(self@.doc.sels.items =~= collapsed(before).doc.sels.items);
            assert forall|j: int| 0 <= j < self@.doc.sels.items.len() implies placed(
                before.doc.text,
                #[trigger] self@.doc.sels.items[j],
            ) by {
                assert(placed(before.doc.text, before.doc.sels.items[j]));
            }
        }
    }

    /// Selects the whole text.
    pub fn select_all(&mut self)
        requires
            old(self)@.wf(),
        ensures
            final(self)@ == all_selected(old(self)@),
            final(self)@.wf(),
    {
        let n: usize = text::len(self.text.as_str());
        let ghost before = self@;
        let mut items: Vec<Selection> = Vec::new();
        items.push(Selection { anchor: 0, head: n, affinity: Affinity::Downstream });
        self.sels = Selections { items, primary: 0 };
        proof {
            lemma_boundary_ends(before.doc.text);
            assert(self@ =~= all_selected(before));
        }
    }

    /// Anchor and caret of the primary selection.
    pub fn primary_caret(&self) -> (r: Option<(usize, usize)>)
        ensures
            r == primary_ends(self@),
    {
        if self.sels.primary < self.sels.items.len() {
            let s: Selection = self.sels.items[self.sels.primary];
            Some((s.anchor, s.head))
        } else {
            None
        }
    }

    /// The visual line of the primary caret; 0 while there are no lines.
    pub fn primary_visual_line(&self) -> (r: usize)
        requires
            self@.wf(),
        ensures
            r == primary_line(self@),
    {
        proof {
            self.lemma_lines();
        }
        if self.sels.primary < self.sels.items.len() {
            let s: Selection = self.sels.items[self.sels.primary];
            let (li, _) = locate_caret(self.body_lines.as_slice(), s.head, s.affinity);
            li
        } else {
            0
        }
    }

    proof fn lemma_lines(&self)
        requires
            self@.wf(),
        ensures
            lines_forward(self@.lines),
            forall|i: int|
                #![trigger self@.lines[i]]
                0 <= i < self@.lines.len() ==> boundary(self@.doc.text, self@.lines[i].start)
                    && boundary(self@.doc.text, self@.lines[i].end),
    {
        lemma_boundary_ends(self@.doc.text);
        if self@.lines.len() > 0 {
            lemma_chained_lines(self@.doc.text, self@.lines, 0, self@.doc.text.len() as int);
        }
    }

    /// The number of visual lines; an unwrapped text counts as one.
    pub fn visual_line_count(&self) -> (r: usize)
        ensures
            r == line_count(self@),
    {
        if self.body_lines.len() > 1 {
            self.body_lines.len()
        } else {
            1
        }
    }

    /// Whether the primary caret is on the first visual line.
    pub fn at_top_visual_line(&self) -> (r: bool)
        requires
            self@.wf(),
        ensures
            r == (primary_line(self@) == 0),
    {
        self.primary_visual_line() == 0
    }

    /// Whether the primary caret is on the last visual line.
    pub fn at_bottom_visual_line(&self) -> (r: bool)
        requires
            self@.wf(),
        ensures
            r == (primary_line(self@) + 1 >= line_count(self@)),
    {
        self.primary_visual_line() >= self.visual_line_count() - 1
    }

    // -----------------------------------------------------------------------
    // Undo
    // -----------------------------------------------------------------------

    /// A copy of the document state.
    pub fn snapshot(&self) -> (s: TextBoxSnapshot)
        ensures
            s@ == self@.doc,
    {
        TextBoxSnapshot {
            text: self.text.clone(),
            sels: self.sels.duplicate(),
            font_scale: self.font_scale,
            links: duplicate_links(self.links.as_slice()),
        }
    }

    /// Puts a document state back. Input in progress is dropped.
    pub fn restore(&mut self, snap: TextBoxSnapshot)
        requires
            old(self)@.wf(),
            snap@.wf(),
        ensures
            final(self)@ == old(self)@.restored(snap@),
            final(self)@.wf(),
    {
        let ghost before = self@;
        self.text = snap.text;
        self.sels = snap.sels;
        self.font_scale = snap.font_scale;
        self.links = snap.links;
        self.mouse_drag = None;
        self.click_count = 0;
        self.last_click_time = None;
        self.drop_lines();
        assert(self@ =~= before.restored(snap@));
    }

    /// Whether an edit at `now` belongs to the burst that the last undo entry
    /// covers.
    fn coalesces(&self, now: u64) -> (r: bool)
        ensures
            r == self@.coalesces(now),
    {
        if self.coalesce_break || self.undo_stack.len() == 0 {
            return false;
        }
        match self.last_edit_at {
            Some(t) => now < t || now - t < TEXTBOX_COALESCE_NANOS,
            None => false,
        }
    }

    /// Saves the document for undo before an edit at `now`, unless the edit
    /// belongs to a burst that is saved already. Nothing can be redone after it.
    fn record_undo(&mut self, now: u64)
        requires
            old(self)@.wf(),
        ensures
            final(self)@ == old(self)@.recorded(now),
            final(self)@.wf(),
    {
        let ghost before = self@;
        if !self.coalesces(now) {
            let snap = self.snapshot();
            let ghost stack = self.undo_stack@;
            self.undo_stack.push(snap);
            assert(views(self.undo_stack@) =~= views(stack).push(before.doc));
            if self.undo_stack.len() > TEXTBOX_UNDO_CAP {
                let ghost full = self.undo_stack@;
                let _ = self.undo_stack.remove(0);
                assert(views(self.undo_stack@) =~= views(full).drop_first());
            }
        }
        self.redo_stack = Vec::new();
        self.last_edit_at = Some(now);
        self.coalesce_break = false;
        proof {
            assert(views(self.redo_stack@) =~= Seq::<Doc>::empty());
            assert(self@ =~= before.recorded(now));
            lemma_recorded_wf(before, now);
        }
    }

    /// Ends the typing burst: the next edit gets an undo entry of its own.
    pub fn break_coalesce(&mut self)
        ensures
            final(self)@ == old(self)@.breaking(),
    {
        self.coalesce_break = true;
    }

    /// Rolls the text box back one edit. Returns whether there was one.
    pub fn undo(&mut self) -> (r: bool)
        requires
            old(self)@.wf(),
        ensures
            r == (old(self)@.undo.len() > 0),
            final(self)@ == old(self)@.undone(),
            final(self)@.wf(),
    {
        let ghost before = self@;
        let ghost stack = self.undo_stack@;
        match self.undo_stack.pop() {
            None => false,
            Some(prev) => {
                assert(views(self.undo_stack@) =~= before.undo.drop_last());
                assert(prev@ == before.undo.last());
                assert(before.undo[before.undo.len() - 1].wf());
                let cur = self.snapshot();
                self.restore(prev);
                let ghost redos = self.redo_stack@;
                self.redo_stack.push(cur);
                assert(views(self.redo_stack@) =~= views(redos).push(before.doc));
                self.coalesce_break = true;
                assert(self@ =~= before.undone());
                true
            },
        }
    }

    /// Replays one undone edit. Returns whether there was one.
    pub fn redo(&mut self) -> (r: bool)
        requires
            old(self)@.wf(),
        ensures
            r == (old(self)@.redo.len() > 0),
            final(self)@ == old(self)@.redone(),
            final(self)@.wf(),
    {
        let ghost before = self@;
        match self.redo_stack.pop() {
            None => false,
            Some(next) => {
                assert(views(self.redo_stack@) =~= before.redo.drop_last());
                assert(next@ == before.redo.last());
                assert(before.redo[before.redo.len() - 1].wf());
                let cur = self.snapshot();
                self.restore(next);
                let ghost undos = self.undo_stack@;
                self.undo_stack.push(cur);
                assert(views(self.undo_stack@) =~= views(undos).push(before.doc));
                self.coalesce_break = true;
                assert(self@ =~= before.redone());
                true
            },
        }
    }

    // -----------------------------------------------------------------------
    // Edits
    // -----------------------------------------------------------------------

    /// Makes one edit: splices the text, moves carets and links along.
    fn apply_edit(&mut self, edit: &Edit)
        requires
            old(self)@.doc.wf(),
            edit_fits(old(self)@.doc.text, edit@),
            old(self)@.doc.room(edit@.with.len() as int),
        ensures
            final(self)@ == (TextModel {
                doc: old(self)@.doc.edited(edit@),
                ..old(self)@.unwrapped()
            }),
    {
        let ghost before = self@;
        let ghost e = edit@;
        let start: usize = edit.range.start;
        let del: usize = edit.range.end - edit.range.start;
        let ins: usize = text::len(edit.replacement.as_str());
        let new_text = text::splice(
            self.text.as_str(),
            start,
            edit.range.end,
            edit.replacement.as_str(),
        );
        let ghost b = utf8(new_text@);
        let ghost moved = Seq::new(
            before.doc.sels.items.len(),
            |i: int| edited_selection(before.doc.sels.items[i], e),
        );
        let mut i: usize = 0;
        while i < self.sels.items.len()
            invariant
                i <= self.sels.items.len(),
                before.doc.wf(),
                edit_fits(before.doc.text, e),
                before.doc.room(e.with.len() as int),
                start == e.start,
                del == e.end - e.start,
                ins == e.with.len(),
                moved == Seq::new(
                    before.doc.sels.items.len(),
                    |i: int| edited_selection(before.doc.sels.items[i], e),
                ),
                self@ == before.selecting(
                    SelectionSet { items: self.sels.items@, ..before.doc.sels },
                ),
                self.sels.items@.len() == before.doc.sels.items.len(),
                forall|j: int| 0 <= j < i ==> self.sels.items@[j] == moved[j],
                forall|j: int|
                    i <= j < self.sels.items@.len() ==> self.sels.items@[j]
                        == before.doc.sels.items[j],
            decreases self.sels.items.len() - i,
        {
            let s: Selection = self.sels.items[i];
            assert(placed(before.doc.text, before.doc.sels.items[i as int]));
            assert(boundary(before.doc.text, s.anchor as int) && boundary(
                before.doc.text,
                s.head as int,
            ));
            self.sels.items.set(
                i,
                Selection {
                    anchor: transform_index(s.anchor, start, del, ins),
                    head: transform_index(s.head, start, del, ins),
                    affinity: Affinity::Downstream,
                },
            );
            i += 1;
            assert(self@ =~= before.selecting(
                SelectionSet { items: self.sels.items@, ..before.doc.sels },
            ));
        }
        assert(self.sels.items@ =~= moved);
        self.sels.normalize();

        let mut kept: Vec<LinkSpan> = Vec::new();
        i = 0;
        let ghost ls = before.doc.links;
        assert(ls.subrange(0, 0) =~= Seq::<Link>::empty());
        assert(views(kept@) =~= Seq::<Link>::empty());
        while i < self.links.len()
            invariant
                i <= self.links.len(),
                ls == views(self.links@),
                before.doc.links == ls,
                before.doc.room(e.with.len() as int),
                edit_fits(before.doc.text, e),
                start == e.start,
                del == e.end - e.start,
                ins == e.with.len(),
                b == utf8(new_text@),
                views(kept@) == edited_links(ls.subrange(0, i as int), e, b),
            decreases self.links.len() - i,
        {
            assert(ls[i as int] == self.links@[i as int]@);
            let ghost l = ls[i as int];
            let ghost prev = kept@;
            let s: usize = transform_index(self.links[i].range.start, start, del, ins);
            let t: usize = transform_index_closed_end(self.links[i].range.end, start, del, ins);
            if s < t {
                if is_kept_tag_url(self.links[i].url.as_str()) {
                    if text::is_boundary(new_text.as_str(), s) && text::is_boundary(
                        new_text.as_str(),
                        t,
                    ) && text::byte_at(new_text.as_str(), s) == 35 {
                        proof {
                            lemma_utf8_valid(new_text@);
                            lemma_after_ascii(b, s as int);
                        }
                        let url = tag_url(text::slice(new_text.as_str(), s + 1, t));
                        kept.push(LinkSpan { range: s..t, url });
                    }
                } else {
                    kept.push(LinkSpan { range: s..t, url: self.links[i].url.clone() });
                }
            }
            proof {
                let upto = ls.subrange(0, i + 1);
                assert(upto.drop_last() =~= ls.subrange(0, i as int));
                assert(upto.last() == l);
                match edited_link(l, e, b) {
                    Some(x) => {
                        assert(kept@.len() == prev.len() + 1);
                        assert(kept@.last()@ == x);
                        assert(views(kept@) =~= views(prev).push(x));
                    },
                    None => {
                        assert(kept@ == prev);
                    },
                }
            }
            i += 1;
        }
        assert(ls.subrange(0, i as int) =~= ls);
        self.text = new_text;
        self.links = kept;
        self.drop_lines();
        assert(self@ =~= TextModel { doc: before.doc.edited(e), ..before.unwrapped() });
    }

    /// Makes `edits` from the back of the text to its front, as one step for
    /// undo.
    fn apply_edits_right_to_left(&mut self, edits: Vec<Edit>, now: u64)
        requires
            old(self)@.wf(),
            old(self)@.can_apply(views(edits@)),
        ensures
            final(self)@ == old(self)@.applying(views(edits@), now),
            final(self)@.wf(),
    {
        let ghost before = self@;
        let ghost all = views(edits@);
        proof {
            lemma_links_natural(self.links@);
            lemma_applying_wf(before, all, now);
            lemma_right_to_left(all);
        }
        if edits.len() == 0 {
            return ;
        }
        self.record_undo(now);
        let mut left = edits;
        let mut sorted: Vec<Edit> = Vec::new();
        let ghost mut done: int = 0;
        assert(all.subrange(0, 0) =~= Seq::<EditModel>::empty());
        assert(views(sorted@) =~= Seq::<EditModel>::empty());
        while left.len() > 0
            invariant
                0 <= done,
                done + left@.len() == all.len(),
                views(left@) == all.subrange(done, all.len() as int),
                views(sorted@) == right_to_left(all.subrange(0, done)),
            decreases left@.len(),
        {
            let ghost rest = left@;
            let e = left.remove(0);
            proof {
                assert(e@ == views(rest)[0]);
                assert(e@ == all[done]);
                assert forall|j: int| 0 <= j < left@.len() implies views(left@)[j] == all[done + 1
                    + j] by {
                    assert(views(rest)[j + 1] == rest[j + 1]@);
                    assert(views(rest)[j + 1] == all.subrange(done, all.len() as int)[j + 1]);
                }
                assert(views(left@) =~= all.subrange(done + 1, all.len() as int));
            }
            let mut k: usize = sorted.len();
            while k > 0 && sorted[k - 1].range.start < e.range.start
                invariant
                    k <= sorted.len(),
                    forall|j: int|
                        k <= j < sorted.len() ==> (#[trigger] views(sorted@)[j]).start < e@.start,
                decreases k,
            {
                k -= 1;
                assert(views(sorted@)[k as int] == sorted@[k as int]@);
            }
            proof {
                if k > 0 {
                    assert(views(sorted@)[k - 1] == sorted@[k - 1]@);
                }
                lemma_insert_back_at(views(sorted@), e@, k as int);
                let upto = all.subrange(0, done + 1);
                assert(upto.drop_last() =~= all.subrange(0, done));
                assert(upto.last() == e@);
            }
            let ghost prev = sorted@;
            let ghost em = e@;
            sorted.insert(k, e);
            assert(views(sorted@) =~= views(prev).insert(k as int, em));
            proof {
                done = done + 1;
            }
        }
        assert(all.subrange(0, done) =~= all);
        let ghost order = views(sorted@);
        let mut i: usize = 0;
        assert(order.subrange(0, order.len() as int) =~= order);
        while i < sorted.len()
            invariant
                i <= sorted.len(),
                order == views(sorted@),
                self@ == (TextModel {
                    doc: self@.doc,
                    ..before.recorded(now).unwrapped()
                }) || (i == 0 && self@ == before.recorded(now)),
                self@.doc.wf(),
                links_natural(self@.doc.links),
                edits_fit(self@.doc.text, order.subrange(i as int, order.len() as int)),
                self@.doc.room(inserted(order.subrange(i as int, order.len() as int))),
                before.doc.edited_by(order) == self@.doc.edited_by(
                    order.subrange(i as int, order.len() as int),
                ),
            decreases sorted.len() - i,
        {
            let ghost rest = order.subrange(i as int, order.len() as int);
            let ghost here = self@;
            proof {
                assert(rest[0] == sorted@[i as int]@);
                assert(rest.drop_first() =~= order.subrange(i + 1, order.len() as int));
                lemma_inserted(rest);
                lemma_inserted(rest.drop_first());
                lemma_edited_wf(here.doc, rest[0]);
                lemma_edited_links_room(
                    here.doc.links,
                    rest[0],
                    here.doc.edited(rest[0]).text,
                    inserted(rest),
                    here.doc.text.len() as int,
                );
            }
            self.apply_edit(&sorted[i]);
            i += 1;
            assert(self@ =~= TextModel { doc: self@.doc, ..before.recorded(now).unwrapped() });
        }
        assert(order.subrange(i as int, order.len() as int) =~= Seq::<EditModel>::empty());
        assert(self@ =~= before.applying(all, now));
    }

    /// Replaces every selection by `s`.
    pub fn insert_text(&mut self, s: &str, now: u64)
        requires
            old(self)@.wf(),
            old(self)@.can_apply(old(self)@.edits(replacing(utf8(s@)))),
        ensures
            final(self)@ == old(self)@.applying(old(self)@.edits(replacing(utf8(s@))), now),
            final(self)@.wf(),
    {
        let ghost f = replacing(utf8(s@));
        let ghost items = self@.doc.sels.items;
        let mut edits: Vec<Edit> = Vec::new();
        let mut i: usize = 0;
        assert(items.subrange(0, 0) =~= Seq::<Selection>::empty());
        assert(views(edits@) =~= Seq::<EditModel>::empty());
        while i < self.sels.items.len()
            invariant
                i <= self.sels.items.len(),
                items == self.sels.items@,
                f == replacing(utf8(s@)),
                views(edits@) == gather(items.subrange(0, i as int), f),
            decreases self.sels.items.len() - i,
        {
            let ghost prev = edits@;
            edits.push(Edit { range: self.sels.items[i].range(), replacement: text::copy(s) });
            proof {
                let upto = items.subrange(0, i + 1);
                assert(upto.drop_last() =~= items.subrange(0, i as int));
                assert(upto.last() == items[i as int]);
                assert(views(edits@) =~= views(prev).push(edits@.last()@));
            }
            i += 1;
        }
        assert(items.subrange(0, i as int) =~= items);
        self.apply_edits_right_to_left(edits, now);
    }

    /// Deletes the selected texts.
    pub fn delete_selection(&mut self, now: u64)
        requires
            old(self)@.wf(),
            old(self)@.has_selection() ==> old(self)@.can_apply(
                old(self)@.edits(replacing(Seq::empty())),
            ),
        ensures
            final(self)@ == old(self)@.selection_deleted(now),
            final(self)@.wf(),
    {
        if self.has_selection() {
            proof {
                reveal_strlit("");
                assert(utf8(""@) =~= Seq::<u8>::empty());
            }
            self.insert_text("", now);
        }
    }

    fn push_deletion(edits: &mut Vec<Edit>, range: Range<usize>)
        ensures
            views(final(edits)@) == (match deletion(range.start as int, range.end as int) {
                Some(e) => views(old(edits)@).push(e),
                None => views(old(edits)@),
            }),
    {
        let ghost prev = edits@;
        if range.start < range.end {
            edits.push(Edit { range, replacement: String::new() });
            proof {
                assert(utf8(Seq::<char>::empty()) =~= Seq::<u8>::empty());
                assert(views(edits@) =~= views(prev).push(edits@.last()@));
            }
        }
    }

    /// Deletes the selections; for a caret, the character in front of it.
    pub fn backspace(&mut self, now: u64)
        requires
            old(self)@.wf(),
            old(self)@.can_apply(old(self)@.edits(erasing_back(old(self)@.doc.text))),
        ensures
            final(self)@ == old(self)@.applying(
                old(self)@.edits(erasing_back(old(self)@.doc.text)),
                now,
            ),
            final(self)@.wf(),
    {
        let ghost f = erasing_back(self@.doc.text);
        let ghost items = self@.doc.sels.items;
        let mut edits: Vec<Edit> = Vec::new();
        let mut i: usize = 0;
        assert(items.subrange(0, 0) =~= Seq::<Selection>::empty());
        assert(views(edits@) =~= Seq::<EditModel>::empty());
        while i < self.sels.items.len()
            invariant
                i <= self.sels.items.len(),
                items == self.sels.items@,
                f == erasing_back(utf8(self.text@)),
                views(edits@) == gather(items.subrange(0, i as int), f),
            decreases self.sels.items.len() - i,
        {
            proof {
                let upto = items.subrange(0, i + 1);
                assert(upto.drop_last() =~= items.subrange(0, i as int));
                assert(upto.last() == items[i as int]);
            }
            let s: Selection = self.sels.items[i];
            if s.is_collapsed() {
                Self::push_deletion(
                    &mut edits,
                    prev_char_boundary(self.text.as_str(), s.head)..s.head,
                );
            } else {
                Self::push_deletion(&mut edits, s.range());
            }
            i += 1;
        }
        assert(items.subrange(0, i as int) =~= items);
        self.apply_edits_right_to_left(edits, now);
    }

    /// Deletes the selections; for a caret, the character at it.
    pub fn forward_delete(&mut self, now: u64)
        requires
            old(self)@.wf(),
            old(self)@.can_apply(old(self)@.edits(erasing_forward(old(self)@.doc.text))),
        ensures
            final(self)@ == old(self)@.applying(
                old(self)@.edits(erasing_forward(old(self)@.doc.text)),
                now,
            ),
            final(self)@.wf(),
    {
        let ghost f = erasing_forward(self@.doc.text);
        let ghost items = self@.doc.sels.items;
        let mut edits: Vec<Edit> = Vec::new();
        let mut i: usize = 0;
        assert(items.subrange(0, 0) =~= Seq::<Selection>::empty());
        assert(views(edits@) =~= Seq::<EditModel>::empty());
        while i < self.sels.items.len()
            invariant
                i <= self.sels.items.len(),
                items == self.sels.items@,
                f == erasing_forward(utf8(self.text@)),
                views(edits@) == gather(items.subrange(0, i as int), f),
            decreases self.sels.items.len() - i,
        {
            proof {
                let upto = items.subrange(0, i + 1);
                assert(upto.drop_last() =~= items.subrange(0, i as int));
                assert(upto.last() == items[i as int]);
            }
            let s: Selection = self.sels.items[i];
            if s.is_collapsed() {
                Self::push_deletion(
                    &mut edits,
                    s.head..next_char_boundary(self.text.as_str(), s.head),
                );
            } else {
                Self::push_deletion(&mut edits, s.range());
            }
            i += 1;
        }
        assert(items.subrange(0, i as int) =~= items);
        self.apply_edits_right_to_left(edits, now);
    }

    /// Deletes the selections; for a caret, the run in front of it.
    pub fn word_backspace(&mut self, now: u64)
        requires
            old(self)@.wf(),
            old(self)@.can_apply(old(self)@.edits(erasing_word_back(old(self)@.doc.text))),
        ensures
            final(self)@ == old(self)@.applying(
                old(self)@.edits(erasing_word_back(old(self)@.doc.text)),
                now,
            ),
            final(self)@.wf(),
    {
        let ghost f = erasing_word_back(self@.doc.text);
        let ghost items = self@.doc.sels.items;
        let mut edits: Vec<Edit> = Vec::new();
        let mut i: usize = 0;
        assert(items.subrange(0, 0) =~= Seq::<Selection>::empty());
        assert(views(edits@) =~= Seq::<EditModel>::empty());
        while i < self.sels.items.len()
            invariant
                i <= self.sels.items.len(),
                items == self.sels.items@,
                f == erasing_word_back(utf8(self.text@)),
                views(edits@) == gather(items.subrange(0, i as int), f),
            decreases self.sels.items.len() - i,
        {
            proof {
                let upto = items.subrange(0, i + 1);
                assert(upto.drop_last() =~= items.subrange(0, i as int));
                assert(upto.last() == items[i as int]);
            }
            let s: Selection = self.sels.items[i];
            if s.is_collapsed() {
                Self::push_deletion(&mut edits, find_word_left_of(self.text.as_str(), s.head));
            } else {
                Self::push_deletion(&mut edits, s.range());
            }
            i += 1;
        }
        assert(items.subrange(0, i as int) =~= items);
        self.apply_edits_right_to_left(edits, now);
    }

    /// Deletes the selections; for a caret, the run at it.
    pub fn word_forward_delete(&mut self, now: u64)
        requires
            old(self)@.wf(),
            old(self)@.can_apply(old(self)@.edits(erasing_word_forward(old(self)@.doc.text))),
        ensures
            final(self)@ == old(self)@.applying(
                old(self)@.edits(erasing_word_forward(old(self)@.doc.text)),
                now,
            ),
            final(self)@.wf(),
    {
        let ghost f = erasing_word_forward(self@.doc.text);
        let ghost items = self@.doc.sels.items;
        let mut edits: Vec<Edit> = Vec::new();
        let mut i: usize = 0;
        assert(items.subrange(0, 0) =~= Seq::<Selection>::empty());
        assert(views(edits@) =~= Seq::<EditModel>::empty());
        while i < self.sels.items.len()
            invariant
                i <= self.sels.items.len(),
                items == self.sels.items@,
                f == erasing_word_forward(utf8(self.text@)),
                views(edits@) == gather(items.subrange(0, i as int), f),
            decreases self.sels.items.len() - i,
        {
            proof {
                let upto = items.subrange(0, i + 1);
                assert(upto.drop_last() =~= items.subrange(0, i as int));
                assert(upto.last() == items[i as int]);
            }
            let s: Selection = self.sels.items[i];
            if s.is_collapsed() {
                Self::push_deletion(&mut edits, find_word_right_of(self.text.as_str(), s.head));
            } else {
                Self::push_deletion(&mut edits, s.range());
            }
            i += 1;
        }
        assert(items.subrange(0, i as int) =~= items);
        self.apply_edits_right_to_left(edits, now);
    }

    // -----------------------------------------------------------------------
    // Caret movement
    // -----------------------------------------------------------------------

    fn move_horizontal(&mut self, delta: i32, shift: bool)
        requires
            old(self)@.wf(),
        ensures
            final(self)@ == old(self)@.moved_horizontally(delta > 0, shift),
            final(self)@.wf(),
    {
        let ghost before = self@;
        let ghost b = before.doc.text;
        let ghost f = stepping(b, before.lines, delta > 0, shift);
        let n: usize = text::len(self.text.as_str());
        let mut i: usize = 0;
        while i < self.sels.items.len()
            invariant
                i <= self.sels.items.len(),
                before.wf(),
                b == before.doc.text,
                f == stepping(b, before.lines, delta > 0, shift),
                self@ == before.selecting(
                    SelectionSet { items: self.sels.items@, ..before.doc.sels },
                ),
                self.sels.items@.len() == before.doc.sels.items.len(),
                forall|j: int| 0 <= j < i ==> self.sels.items@[j] == f(before.doc.sels.items[j]),
                forall|j: int|
                    i <= j < self.sels.items@.len() ==> self.sels.items@[j]
                        == before.doc.sels.items[j],
            decreases self.sels.items.len() - i,
        {
            let s: Selection = self.sels.items[i];
            let moved = if !shift && !s.is_collapsed() {
                let r = s.range();
                let target: usize = if delta > 0 {
                    r.end
                } else {
                    r.start
                };
                let keeps: bool = (delta > 0 && s.head >= s.anchor) || (!(delta > 0) && s.head
                    <= s.anchor);
                Selection {
                    anchor: target,
                    head: target,
                    affinity: if keeps {
                        s.affinity
                    } else {
                        Affinity::Downstream
                    },
                }
            } else {
                let (head, affinity) = step_horizontal(
                    self.text.as_str(),
                    self.body_lines.as_slice(),
                    s.head,
                    s.affinity,
                    delta,
                );
                Selection {
                    anchor: if shift {
                        s.anchor
                    } else {
                        head
                    },
                    head,
                    affinity,
                }
            };
            self.sels.items.set(i, moved);
            i += 1;
            assert(self@ =~= before.selecting(
                SelectionSet { items: self.sels.items@, ..before.doc.sels },
            ));
        }
        let ghost moved = self.sels.items@;
        self.sels.normalize();
        proof {
            assert(moved =~= Seq::new(before.doc.sels.items.len(), |j: int| f(before.doc.sels.items[j])));
            assert(self@ =~= before.moved_horizontally(delta > 0, shift));
            lemma_moves_wf(before, delta > 0, shift);
        }
    }

    fn move_horizontal_word(&mut self, delta: i32, shift: bool)
        requires
            old(self)@.wf(),
        ensures
            final(self)@ == old(self)@.moved_by_word(delta > 0, shift),
            final(self)@.wf(),
    {
        let ghost before = self@;
        let ghost b = before.doc.text;
        let ghost f = word_stepping(b, delta > 0, shift);
        let n: usize = text::len(self.text.as_str());
        let mut i: usize = 0;
        while i < self.sels.items.len()
            invariant
                i <= self.sels.items.len(),
                before.wf(),
                b == before.doc.text,
                f == word_stepping(b, delta > 0, shift),
                self@ == before.selecting(
                    SelectionSet { items: self.sels.items@, ..before.doc.sels },
                ),
                self.sels.items@.len() == before.doc.sels.items.len(),
                forall|j: int| 0 <= j < i ==> self.sels.items@[j] == f(before.doc.sels.items[j]),
                forall|j: int|
                    i <= j < self.sels.items@.len() ==> self.sels.items@[j]
                        == before.doc.sels.items[j],
            decreases self.sels.items.len() - i,
        {
            let s: Selection = self.sels.items[i];
            let head: usize = if delta > 0 {
                find_word_right_of(self.text.as_str(), s.head).end
            } else {
                find_word_left_of(self.text.as_str(), s.head).start
            };
            let affinity = if head != s.head {
                Affinity::Downstream
            } else {
                s.affinity
            };
            self.sels.items.set(
                i,
                Selection {
                    anchor: if shift {
                        s.anchor
                    } else {
                        head
                    },
                    head,
                    affinity,
                },
            );
            i += 1;
            assert(self@ =~= before.selecting(
                SelectionSet { items: self.sels.items@, ..before.doc.sels },
            ));
        }
        let ghost moved = self.sels.items@;
        self.sels.normalize();
        proof {
            assert(moved =~= Seq::new(before.doc.sels.items.len(), |j: int| f(before.doc.sels.items[j])));
            assert(self@ =~= before.moved_by_word(delta > 0, shift));
            lemma_moves_wf(before, delta > 0, shift);
        }
    }

    fn move_vertical(&mut self, down: bool, shift: bool)
        requires
            old(self)@.wf(),
        ensures
            final(self)@ == old(self)@.moved_vertically(down, shift),
            final(self)@.wf(),
    {
        if self.body_lines.len() == 0 {
            return ;
        }
        let ghost before = self@;
        let ghost b = before.doc.text;
        let ghost ls = before.lines;
        let ghost f = line_stepping(b, ls, down, shift);
        let n: usize = text::len(self.text.as_str());
        proof {
            self.lemma_lines();
        }
        let mut i: usize = 0;
        while i < self.sels.items.len()
            invariant
                i <= self.sels.items.len(),
                before.wf(),
                b == before.doc.text,
                ls == before.lines,
                ls == spans(self.body_lines@),
                ls.len() > 0,
                lines_forward(ls),
                forall|k: int|
                    #![trigger ls[k]]
                    0 <= k < ls.len() ==> boundary(b, ls[k].start) && boundary(b, ls[k].end),
                f == line_stepping(b, ls, down, shift),
                self@ == before.selecting(
                    SelectionSet { items: self.sels.items@, ..before.doc.sels },
                ),
                self.sels.items@.len() == before.doc.sels.items.len(),
                forall|j: int| 0 <= j < i ==> self.sels.items@[j] == f(before.doc.sels.items[j]),
                forall|j: int|
                    i <= j < self.sels.items@.len() ==> self.sels.items@[j]
                        == before.doc.sels.items[j],
            decreases self.sels.items.len() - i,
        {
            let s: Selection = self.sels.items[i];
            proof {
                lemma_caret_place(ls, s.head as int, s.affinity);
            }
            let (line_idx, offset) = locate_caret(
                self.body_lines.as_slice(),
                s.head,
                s.affinity,
            );
            let count: usize = self.body_lines.len();
            let stays: bool = if down {
                line_idx + 1 >= count
            } else {
                line_idx == 0
            };
            if !stays {
                let target: usize = if down {
                    line_idx + 1
                } else {
                    line_idx - 1
                };
                assert(ls[target as int] == span(self.body_lines@[target as int]));
                let line_start: usize = self.body_lines[target].start;
                let line_len: usize = self.body_lines[target].end - line_start;
                let mut off: usize = if offset < line_len {
                    offset
                } else {
                    line_len
                };
                let ghost from = off as int;
                proof {
                    lemma_snapped(b, line_start as int, from);
                }
                while off > 0 && !text::is_boundary(self.text.as_str(), line_start + off)
                    invariant
                        b == utf8(self.text@),
                        off <= from,
                        line_start + from <= usize::MAX,
                        snapped(b, line_start as int, off as int) == snapped(
                            b,
                            line_start as int,
                            from,
                        ),
                    decreases off,
                {
                    off -= 1;
                }
                let head: usize = line_start + off;
                let affinity = if off == 0 && target > 0 {
                    Affinity::Downstream
                } else if off == line_len && target + 1 < count {
                    Affinity::Upstream
                } else {
                    Affinity::Downstream
                };
                self.sels.items.set(
                    i,
                    Selection {
                        anchor: if shift {
                            s.anchor
                        } else {
                            head
                        },
                        head,
                        affinity,
                    },
                );
            }
            i += 1;
            assert(self@ =~= before.selecting(
                SelectionSet { items: self.sels.items@, ..before.doc.sels },
            ));
        }
        let ghost moved = self.sels.items@;
        self.sels.normalize();
        proof {
            assert(moved =~= Seq::new(before.doc.sels.items.len(), |j: int| f(before.doc.sels.items[j])));
            assert(self@ =~= before.moved_vertically(down, shift));
            lemma_moves_wf(before, down, shift);
        }
    }

    fn move_to_line_edge(&mut self, end: bool, shift: bool)
        requires
            old(self)@.wf(),
        ensures
            final(self)@ == old(self)@.moved_to_edge(end, shift),
            final(self)@.wf(),
    {
        if self.body_lines.len() == 0 {
            return ;
        }
        let ghost before = self@;
        let ghost ls = before.lines;
        let ghost f = edge_stepping(ls, end, shift);
        let n: usize = text::len(self.text.as_str());
        proof {
            self.lemma_lines();
        }
        let mut i: usize = 0;
        while i < self.sels.items.len()
            invariant
                i <= self.sels.items.len(),
                before.wf(),
                ls == before.lines,
                ls == spans(self.body_lines@),
                ls.len() > 0,
                lines_forward(ls),
                f == edge_stepping(ls, end, shift),
                self@ == before.selecting(
                    SelectionSet { items: self.sels.items@, ..before.doc.sels },
                ),
                self.sels.items@.len() == before.doc.sels.items.len(),
                forall|j: int| 0 <= j < i ==> self.sels.items@[j] == f(before.doc.sels.items[j]),
                forall|j: int|
                    i <= j < self.sels.items@.len() ==> self.sels.items@[j]
                        == before.doc.sels.items[j],
            decreases self.sels.items.len() - i,
        {
            let s: Selection = self.sels.items[i];
            proof {
                lemma_caret_place(ls, s.head as int, s.affinity);
            }
            let (line_idx, _) = locate_caret(self.body_lines.as_slice(), s.head, s.affinity);
            assert(ls[line_idx as int] == span(self.body_lines@[line_idx as int]));
            let head: usize = if end {
                self.body_lines[line_idx].end
            } else {
                self.body_lines[line_idx].start
            };
            let count: usize = self.body_lines.len();
            let affinity = if end && line_idx + 1 < count {
                Affinity::Upstream
            } else {
                Affinity::Downstream
            };
            self.sels.items.set(
                i,
                Selection {
                    anchor: if shift {
                        s.anchor
                    } else {
                        head
                    },
                    head,
                    affinity,
                },
            );
            i += 1;
            assert(self@ =~= before.selecting(
                SelectionSet { items: self.sels.items@, ..before.doc.sels },
            ));
        }
        let ghost moved = self.sels.items@;
        self.sels.normalize();
        proof {
            assert(moved =~= Seq::new(before.doc.sels.items.len(), |j: int| f(before.doc.sels.items[j])));
            assert(self@ =~= before.moved_to_edge(end, shift));
            lemma_moves_wf(before, end, shift);
        }
    }

    // -----------------------------------------------------------------------
    // Keys
    // -----------------------------------------------------------------------

    /// Handles a key: arrows, Home and End move carets, Backspace and Delete
    /// erase, Enter breaks the line, anything printable is typed. Returns whether
    /// the key was taken.
    pub fn handle_key(&mut self, event: &KeyEvent, mods: Modifiers, now: u64) -> (r: bool)
        requires
            old(self)@.wf(),
            old(self)@.can_apply(key_edits(old(self)@, *event, mods)),
        ensures
            (final(self)@, r) == after_key(old(self)@, *event, mods, now),
            final(self)@.wf(),
    {
        if !event.pressed {
            return false;
        }
        let shift: bool = mods.shift;
        match event.key {
            Key::ArrowLeft => {
                if line_edge_mod(mods) {
                    self.move_to_line_edge(false, shift);
                } else if word_mod(mods) {
                    self.move_horizontal_word(-1, shift);
                } else {
                    self.move_horizontal(-1, shift);
                }
                self.break_coalesce();
                true
            },
            Key::ArrowRight => {
                if line_edge_mod(mods) {
                    self.move_to_line_edge(true, shift);
                } else if word_mod(mods) {
                    self.move_horizontal_word(1, shift);
                } else {
                    self.move_horizontal(1, shift);
                }
                self.break_coalesce();
                true
            },
            Key::ArrowUp => {
                self.move_vertical(false, shift);
                self.break_coalesce();
                true
            },
            Key::ArrowDown => {
                self.move_vertical(true, shift);
                self.break_coalesce();
                true
            },
            Key::Home => {
                self.move_to_line_edge(false, shift);
                self.break_coalesce();
                true
            },
            Key::End => {
                self.move_to_line_edge(true, shift);
                self.break_coalesce();
                true
            },
            Key::Backspace => {
                if word_mod(mods) {
                    self.word_backspace(now);
                } else {
                    self.backspace(now);
                }
                true
            },
            Key::Delete => {
                if word_mod(mods) {
                    self.word_forward_delete(now);
                } else {
                    self.forward_delete(now);
                }
                true
            },
            Key::Enter => {
                proof {
                    reveal_strlit("\n");
                    is_ascii_chars_encode_utf8("\n"@);
                    assert(utf8("\n"@) =~= seq![10u8]);
                }
                self.insert_text("\n", now);
                true
            },
            Key::Tab => false,
            Key::Modifier | Key::Other => {
                match &event.text {
                    Some(s) => {
                        if is_printable(s.as_str()) {
                            self.insert_text(s.as_str(), now);
                            true
                        } else {
                            false
                        }
                    },
                    None => false,
                }
            },
        }
    }

    // -----------------------------------------------------------------------
    // The mouse
    // -----------------------------------------------------------------------

    /// Marks the tag or link at `idx` to be followed. Returns whether there is
    /// one.
    fn follow(&mut self, idx: usize) -> (r: bool)
        requires
            old(self)@.wf(),
        ensures
            r == follows(old(self)@, idx as int),
            final(self)@ == followed(old(self)@, idx as int),
            final(self)@.wf(),
    {
        let ghost before = self@;
        if let Some(name) = self.tag_at(idx) {
            self.pending_tag_name = Some(name);
            assert(self@ =~= followed(before, idx as int));
            return true;
        }
        let k: usize = self.link_index(idx);
        if k < self.links.len() {
            assert(before.doc.links[k as int] == self.links@[k as int]@);
            self.pending_link_url = Some(text::copy(self.links[k].url.as_str()));
            assert(self@ =~= followed(before, idx as int));
            return true;
        }
        assert(before.doc.links.len() == self.links@.len());
        false
    }

    /// Counts a click of a multi-click.
    fn count_click(&mut self, click: &Click, mods: Modifiers)
        requires
            old(self)@.wf(),
        ensures
            final(self)@ == counted(old(self)@, *click, mods),
            final(self)@.wf(),
    {
        let ghost before = self@;
        let again: bool = !mods.shift && click.near && match self.last_click_time {
            Some(t) => click.now < t || click.now - t <= MULTI_CLICK_NANOS,
            None => false,
        };
        self.click_count = if !again {
            1
        } else if self.click_count < 2 {
            self.click_count + 1
        } else {
            3
        };
        self.last_click_time = Some(click.now);
        assert(self@ =~= counted(before, *click, mods));
    }

    /// Moves the caret of the primary selection, its anchor staying.
    fn extend_to(&mut self, click: &Click)
        requires
            old(self)@.wf(),
            boundary(old(self)@.doc.text, click.idx as int),
        ensures
            final(self)@ == extended(old(self)@, *click),
            final(self)@.wf(),
    {
        let ghost before = self@;
        if self.sels.primary < self.sels.items.len() {
            let p: usize = self.sels.primary;
            let s: Selection = self.sels.items[p];
            self.sels.items.set(
                p,
                Selection { anchor: s.anchor, head: click.idx, affinity: click.affinity },
            );
            self.mouse_drag = Some(DragState { sel_idx: p, kind: DragKind::Char });
            proof {
                assert(self@ =~= extended(before, *click));
                assert(placed(before.doc.text, before.doc.sels.items[p as int]));
                assert forall|i: int| 0 <= i < self@.doc.sels.items.len() implies placed(
                    before.doc.text,
                    #[trigger] self@.doc.sels.items[i],
                ) by {
                    if i != p {
                        assert(self@.doc.sels.items[i] == before.doc.sels.items[i]);
                    }
                }
            }
        }
    }

    /// Selects what a click hits, besides the other selections or in their place.
    fn select_unit(&mut self, click: &Click, adding: bool)
        requires
            old(self)@.wf(),
            boundary(old(self)@.doc.text, click.idx as int),
        ensures
            final(self)@ == unit_selected(old(self)@, *click, adding),
            final(self)@.wf(),
    {
        let ghost before = self@;
        let ghost b = before.doc.text;
        let n: usize = text::len(self.text.as_str());
        proof {
            self.lemma_lines();
            lemma_boundary_ends(b);
            lemma_utf8_valid(self.text@);
            lemma_word_bounds(b, click.idx as int);
            lemma_caret_place_in(before.lines, click.idx as int, click.affinity);
        }
        let (sel, kind) = resolve_click_unit(
            self.text.as_str(),
            self.body_lines.as_slice(),
            click.idx,
            click.affinity,
            self.click_count,
        );
        assert(placed(b, sel));
        if adding {
            let new_idx: usize = self.sels.items.len();
            self.sels.items.push(sel);
            self.sels.primary = new_idx;
            self.mouse_drag = Some(DragState { sel_idx: new_idx, kind });
        } else {
            let mut items: Vec<Selection> = Vec::new();
            items.push(sel);
            self.sels = Selections { items, primary: 0 };
            self.mouse_drag = Some(DragState { sel_idx: 0, kind });
        }
        assert(self@.doc.sels =~= unit_selected(before, *click, adding).doc.sels);
        assert(self@ =~= unit_selected(before, *click, adding));
    }

    /// Handles a press of the mouse button: follows a link or tag where the
    /// modifiers ask for that, else places the caret, selects a word or line, or
    /// extends the selection.
    pub fn mouse_down(&mut self, click: Click, mods: Modifiers, editing: bool) -> (r: bool)
        requires
            old(self)@.wf(),
            boundary(old(self)@.doc.text, click.idx as int),
        ensures
            r,
            final(self)@ == after_mouse_down(old(self)@, click, mods, editing),
            final(self)@.wf(),
    {
        self.break_coalesce();
        let opens: bool = (!editing && !mods.shift && !mods.alt) || (editing && primary_mod(mods)
            && !mods.shift && !mods.alt) || (mods.alt && !mods.shift && !primary_mod(mods));
        if opens && self.follow(click.idx) {
            return true;
        }
        self.count_click(&click, mods);
        if mods.shift && !mods.alt {
            self.extend_to(&click);
        } else {
            self.select_unit(&click, mods.alt);
        }
        true
    }

    /// Extends the selection of a drag in progress to `idx`. Returns whether it
    /// changed.
    pub fn mouse_drag_to(&mut self, idx: usize, affinity: Affinity) -> (r: bool)
        requires
            old(self)@.wf(),
            boundary(old(self)@.doc.text, idx as int),
            drag_fits(old(self)@),
        ensures
            final(self)@ == after_drag(old(self)@, idx, affinity),
            r == (final(self)@ != old(self)@),
            final(self)@.wf(),
    {
        let ghost before = self@;
        let ghost b = before.doc.text;
        let n: usize = text::len(self.text.as_str());
        proof {
            self.lemma_lines();
            lemma_boundary_ends(b);
            lemma_word_bounds(b, idx as int);
            lemma_caret_place_in(before.lines, idx as int, affinity);
        }
        let (sel_idx, kind) = match &self.mouse_drag {
            Some(d) => (d.sel_idx, d.kind.duplicate()),
            None => {
                return false;
            },
        };
        if sel_idx >= self.sels.items.len() {
            return false;
        }
        let s: Selection = self.sels.items[sel_idx];
        let moved = match kind {
            DragKind::Char => Selection { anchor: s.anchor, head: idx, affinity },
            DragKind::Word(initial) => {
                let hit = find_word_at(self.text.as_str(), idx);
                if hit.start >= initial.start {
                    Selection {
                        anchor: initial.start,
                        head: hit.end,
                        affinity: Affinity::Downstream,
                    }
                } else {
                    Selection {
                        anchor: initial.end,
                        head: hit.start,
                        affinity: Affinity::Downstream,
                    }
                }
            },
            DragKind::Line(initial) => {
                let hit = find_line_at(self.body_lines.as_slice(), idx, affinity);
                if hit.start >= initial.start {
                    let aff = if hit.end == n {
                        Affinity::Downstream
                    } else {
                        Affinity::Upstream
                    };
                    Selection { anchor: initial.start, head: hit.end, affinity: aff }
                } else {
                    Selection {
                        anchor: initial.end,
                        head: hit.start,
                        affinity: Affinity::Downstream,
                    }
                }
            },
        };
        proof {
            assert(placed(b, before.doc.sels.items[sel_idx as int]));
            assert(moved == dragged(
                before,
                before.doc.sels.items[sel_idx as int],
                before.drag->0.kind,
                idx,
                affinity,
            ));
            assert(placed(b, moved));
        }
        if s == moved {
            assert(after_drag(before, idx, affinity).doc.sels.items =~= before.doc.sels.items);
            assert(after_drag(before, idx, affinity) =~= before);
            return false;
        }
        self.sels.items.set(sel_idx, moved);
        proof {
            assert(self@ =~= after_drag(before, idx, affinity));
            assert(self@.doc.sels.items[sel_idx as int]
                != before.doc.sels.items[sel_idx as int]);
        }
        true
    }

    /// Whether a drag is in progress.
    pub fn is_dragging(&self) -> (r: bool)
        ensures
            r == (self@.drag is Some),
    {
        self.mouse_drag.is_some()
    }

    /// Ends a drag: joins the selections that it made overlap. Returns whether
    /// there was one.
    pub fn mouse_up(&mut self) -> (r: bool)
        requires
            old(self)@.wf(),
        ensures
            r == (old(self)@.drag is Some),
            final(self)@ == after_mouse_up(old(self)@),
            final(self)@.wf(),
    {
        let ghost before = self@;
        if self.mouse_drag.is_some() {
            self.mouse_drag = None;
            self.sels.normalize();
            proof {
                assert(self@ =~= after_mouse_up(before));
                let text = before.doc.text;
                let p = |x: int| boundary(text, x);
                assert forall|i: int| 0 <= i < before.doc.sels.items.len() implies ends_satisfy(
                    #[trigger] before.doc.sels.items[i],
                    p,
                ) by {
                    assert(placed(text, before.doc.sels.items[i]));
                }
                lemma_normalized_keeps(before.doc.sels, p);
                assert forall|i: int| 0 <= i < self@.doc.sels.items.len() implies placed(
                    text,
                    #[trigger] self@.doc.sels.items[i],
                ) by {
                    assert(ends_satisfy(before.doc.sels.normalized().items[i], p));
                }
            }
            true
        } else {
            false
        }
    }

    // -----------------------------------------------------------------------
    // Links and tags
    // -----------------------------------------------------------------------

    fn link_index(&self, byte: usize) -> (k: usize)
        ensures
            k == link_covering(self@.doc.links, byte as int, 0),
    {
        let ghost ls = views(self.links@);
        let mut k: usize = 0;
        while k < self.links.len() && !(byte >= self.links[k].range.start && byte
            < self.links[k].range.end)
            invariant
                ls == views(self.links@),
                k <= self.links.len(),
                link_covering(ls, byte as int, 0) == link_covering(ls, byte as int, k as int),
            decreases self.links.len() - k,
        {
            assert(ls[k as int] == self.links@[k as int]@);
            k += 1;
        }
        if k < self.links.len() {
            assert(ls[k as int] == self.links@[k as int]@);
        }
        k
    }

    /// The first link that covers the byte `byte`.
    pub fn link_at(&self, byte: usize) -> (r: Option<&LinkSpan>)
        ensures
            (match r {
                Some(l) => Some((*l)@),
                None => None,
            }) == link_under(self@.doc.links, byte as int),
    {
        let k: usize = self.link_index(byte);
        if k < self.links.len() {
            let l = &self.links[k];
            assert(self@.doc.links[k as int] == l@);
            Some(l)
        } else {
            None
        }
    }

    /// The tag, without its `#`, that covers the byte `byte`.
    pub fn tag_at(&self, byte: usize) -> (r: Option<String>)
        ensures
            optional_bytes(r) == tag_under(self@.doc.links, byte as int),
    {
        let ghost ls = views(self.links@);
        let mut k: usize = 0;
        assert(ls.subrange(0, ls.len() as int) =~= ls);
        while k < self.links.len()
            invariant
                ls == views(self.links@),
                k <= self.links.len(),
                tag_under(ls, byte as int) == tag_under(
                    ls.subrange(k as int, ls.len() as int),
                    byte as int,
                ),
            decreases self.links.len() - k,
        {
            let ghost rest = ls.subrange(k as int, ls.len() as int);
            assert(rest[0] == self.links@[k as int]@);
            assert(rest.drop_first() =~= ls.subrange(k + 1, ls.len() as int));
            let l = &self.links[k];
            if byte >= l.range.start && byte < l.range.end {
                if let Some(name) = link_tag(l) {
                    return Some(text::copy(name));
                }
            }
            k += 1;
        }
        assert(ls.subrange(k as int, ls.len() as int) =~= Seq::<Link>::empty());
        None
    }

    /// Puts a link on `range`, where that is a part of the text that is not
    /// empty.
    pub fn add_link(&mut self, range: Range<usize>, url: String)
        requires
            old(self)@.wf(),
        ensures
            final(self)@ == old(self)@.linking(
                with_link(
                    old(self)@.doc.text,
                    old(self)@.doc.links,
                    range.start as int,
                    range.end as int,
                    utf8(url@),
                ),
            ),
            final(self)@.wf(),
    {
        let ghost before = self@;
        if range.start < range.end && range.end <= text::len(self.text.as_str()) {
            let ghost prev = self.links@;
            self.links.push(LinkSpan { range, url });
            assert(views(self.links@) =~= views(prev).push(self.links@.last()@));
        }
        assert(self@ =~= before.linking(
            with_link(
                before.doc.text,
                before.doc.links,
                range.start as int,
                range.end as int,
                utf8(url@),
            ),
        ));
    }

    /// Commits a tag on `range`, leading `#` included, where that is a part of
    /// the text that starts with `#`.
    pub fn add_tag(&mut self, range: Range<usize>)
        requires
            old(self)@.wf(),
            linkable(old(self)@.doc.text, range.start as int, range.end as int) ==> boundary(
                old(self)@.doc.text,
                range.start as int,
            ) && boundary(old(self)@.doc.text, range.end as int),
        ensures
            final(self)@ == old(self)@.linking(
                with_tag(
                    old(self)@.doc.text,
                    old(self)@.doc.links,
                    range.start as int,
                    range.end as int,
                ),
            ),
            final(self)@.wf(),
    {
        let ghost before = self@;
        let ghost b = before.doc.text;
        if range.start < range.end && range.end <= text::len(self.text.as_str()) && text::byte_at(
            self.text.as_str(),
            range.start,
        ) == 35 {
            proof {
                lemma_utf8_valid(self.text@);
                lemma_after_ascii(b, range.start as int);
            }
            let url = tag_url(text::slice(self.text.as_str(), range.start + 1, range.end));
            let ghost prev = self.links@;
            self.links.push(LinkSpan { range, url });
            assert(views(self.links@) =~= views(prev).push(self.links@.last()@));
        }
        assert(self@ =~= before.linking(
            with_tag(b, before.doc.links, range.start as int, range.end as int),
        ));
    }

    /// The committed tags, as ranges of the text.
    pub fn tags(&self) -> (tags: Vec<TagSpan>)
        ensures
            tags@.map_values(|t: TagSpan| span(t.range)) == self@.doc.links.filter_map(tag_span()),
    {
        let ghost ls = views(self.links@);
        let ghost f = |t: TagSpan| span(t.range);
        let mut tags: Vec<TagSpan> = Vec::new();
        let mut i: usize = 0;
        assert(tags@.map_values(f) =~= ls.subrange(0, 0).filter_map(tag_span()));
        while i < self.links.len()
            invariant
                i <= self.links.len(),
                ls == views(self.links@),
                f == (|t: TagSpan| span(t.range)),
                tags@.map_values(f) == ls.subrange(0, i as int).filter_map(tag_span()),
            decreases self.links.len() - i,
        {
            proof {
                let upto = ls.subrange(0, i + 1);
                assert(upto.drop_last() =~= ls.subrange(0, i as int));
                assert(upto.last() == self.links@[i as int]@);
            }
            let ghost prev = tags@;
            if is_kept_tag_url(self.links[i].url.as_str()) {
                tags.push(TagSpan { range: copy_range(&self.links[i].range) });
                assert(tags@.map_values(f) =~= prev.map_values(f) + seq![f(tags@.last())]);
            }
            i += 1;
        }
        assert(ls.subrange(0, i as int) =~= ls);
        tags
    }

    /// Removes every committed tag named `name`; the text stays. Returns whether
    /// there was one.
    pub fn remove_tags_named(&mut self, name: &str) -> (r: bool)
        requires
            old(self)@.wf(),
        ensures
            final(self)@ == old(self)@.linking(
                without_tag(old(self)@.doc.text, old(self)@.doc.links, utf8(name@)),
            ),
            r == (final(self)@.doc.links.len() != old(self)@.doc.links.len()),
            final(self)@.wf(),
    {
        let ghost before = self@;
        let ghost ls = before.doc.links;
        let ghost b = before.doc.text;
        let target = tag_url(name);
        let n: usize = text::len(self.text.as_str());
        let ghost keep = keeps_link(b, utf8(name@));
        let mut kept: Vec<LinkSpan> = Vec::new();
        let mut i: usize = 0;
        proof {
            reveal(Seq::filter);
            assert(views(kept@) =~= ls.subrange(0, 0).filter(keep));
        }
        while i < self.links.len()
            invariant
                i <= self.links.len(),
                ls == views(self.links@),
                utf8(target@) == tag_scheme() + utf8(name@),
                n == b.len(),
                keep == keeps_link(b, utf8(name@)),
                views(kept@) == ls.subrange(0, i as int).filter(keep),
            decreases self.links.len() - i,
        {
            let ghost prev = kept@;
            proof {
                reveal(Seq::filter);
                let upto = ls.subrange(0, i + 1);
                assert(upto.drop_last() =~= ls.subrange(0, i as int));
                assert(upto.last() == self.links@[i as int]@);
            }
            let l = &self.links[i];
            if l.range.end > n || l.range.start >= l.range.end || !text::same(
                l.url.as_str(),
                target.as_str(),
            ) {
                kept.push(l.duplicate());
                assert(views(kept@) =~= views(prev).push(kept@.last()@));
            }
            i += 1;
        }
        assert(ls.subrange(0, i as int) =~= ls);
        let changed: bool = kept.len() != self.links.len();
        self.links = kept;
        assert(self@ =~= before.linking(without_tag(b, ls, utf8(name@))));
        changed
    }

    /// Commits the tags that the text spells, where none is committed yet: the
    /// trailing ones of a title, those anywhere in a body.
    pub fn migrate_tags_from_text(&mut self)
        requires
            old(self)@.wf(),
        ensures
            final(self)@ == migrated(old(self)@),
            final(self)@.wf(),
    {
        let ghost before = self@;
        let ghost b = before.doc.text;
        let ghost ls = before.doc.links;
        let mut i: usize = 0;
        while i < self.links.len()
            invariant
                i <= self.links.len(),
                ls == views(self.links@),
                before == self@,
                before.doc.links == ls,
                before.wf(),
                forall|k: int| 0 <= k < i ==> !is_tag_address((#[trigger] ls[k]).url),
            decreases self.links.len() - i,
        {
            assert(ls[i as int] == self.links@[i as int]@);
            if is_kept_tag_url(self.links[i].url.as_str()) {
                return ;
            }
            i += 1;
        }
        proof {
            lemma_first_byte(b, 10, 0);
            lemma_boundary_ends(b);
            lemma_trailing_tags(b, first_byte(b, 10, 0));
            lemma_inline_tags(b, b.len() as int);
        }
        let found = if self.force_heading {
            let heading_end: usize = text::find_byte(self.text.as_str(), 10, 0);
            parse_heading_tags(self.text.as_str(), heading_end)
        } else {
            parse_inline_tags(self.text.as_str())
        };
        let ghost fs = spans(found@);
        i = 0;
        assert(fs.subrange(0, 0) =~= Seq::<Span>::empty());
        assert(before.linking(ls) =~= before);
        while i < found.len()
            invariant
                i <= found.len(),
                fs == spans(found@),
                b == before.doc.text,
                ls == before.doc.links,
                before.wf(),
                self@.wf(),
                forall|k: int|
                    #![trigger fs[k]]
                    0 <= k < fs.len() ==> boundary(b, fs[k].start) && boundary(b, fs[k].end),
                self@ == before.linking(with_found_tags(b, ls, fs.subrange(0, i as int))),
            decreases found.len() - i,
        {
            proof {
                let upto = fs.subrange(0, i + 1);
                assert(upto.drop_last() =~= fs.subrange(0, i as int));
                assert(upto.last() == span(found@[i as int]));
                assert(fs[i as int] == span(found@[i as int]));
            }
            if found[i].end > found[i].start && found[i].end - found[i].start > 1 {
                self.add_tag(copy_range(&found[i]));
            }
            i += 1;
        }
        assert(fs.subrange(0, i as int) =~= fs);
    }

    /// The distinct tags, without `#`, of a title, in order; none for a body.
    pub fn heading_tag_names(&self) -> (names: Vec<String>)
        ensures
            bytes_of(names@) == self@.heading_tags(),
    {
        let mut names: Vec<String> = Vec::new();
        if self.force_heading {
            proof {
                lemma_first_byte(self@.doc.text, 10, 0);
            }
            let heading_end: usize = text::find_byte(self.text.as_str(), 10, 0);
            assert(bytes_of(names@) =~= Seq::<Seq<u8>>::empty());
            self.tags_into_up_to(&mut names, heading_end);
        }
        assert(self@.force_heading || bytes_of(names@) =~= Seq::<Seq<u8>>::empty());
        names
    }

    /// The distinct tags, without `#`, of a body, in order.
    pub fn all_tag_names(&self) -> (names: Vec<String>)
        ensures
            bytes_of(names@) == self@.tags_behind(Seq::empty()),
    {
        let mut names: Vec<String> = Vec::new();
        assert(bytes_of(names@) =~= Seq::<Seq<u8>>::empty());
        self.tags_into_up_to(&mut names, usize::MAX);
        names
    }

    /// Puts the tags that `names` does not hold yet behind it.
    pub fn all_tag_names_into(&self, names: &mut Vec<String>)
        ensures
            bytes_of(final(names)@) == self@.tags_behind(bytes_of(old(names)@)),
    {
        self.tags_into_up_to(names, usize::MAX);
    }

    fn tags_into_up_to(&self, names: &mut Vec<String>, limit: usize)
        ensures
            bytes_of(final(names)@) == tags_into(
                bytes_of(old(names)@),
                self@.doc.links,
                limit as int,
            ),
    {
        let ghost ls = views(self.links@);
        let ghost start = bytes_of(names@);
        let mut i: usize = 0;
        assert(ls.subrange(0, 0) =~= Seq::<Link>::empty());
        while i < self.links.len()
            invariant
                i <= self.links.len(),
                ls == views(self.links@),
                bytes_of(names@) == tags_into(start, ls.subrange(0, i as int), limit as int),
            decreases self.links.len() - i,
        {
            proof {
                let upto = ls.subrange(0, i + 1);
                assert(upto.drop_last() =~= ls.subrange(0, i as int));
                assert(upto.last() == self.links@[i as int]@);
            }
            if self.links[i].range.end <= limit {
                if let Some(name) = link_tag(&self.links[i]) {
                    push_distinct(names, name);
                }
            }
            i += 1;
        }
        assert(ls.subrange(0, i as int) =~= ls);
    }

    // -----------------------------------------------------------------------
    // Replacing, pasting, cutting
    // -----------------------------------------------------------------------

    fn edit_at(&mut self, range: Range<usize>, replacement: String, now: u64)
        requires
            old(self)@.wf(),
            edit_fits(
                old(self)@.doc.text,
                (EditModel {
                    start: range.start as int,
                    end: range.end as int,
                    with: utf8(replacement@),
                }),
            ),
            old(self)@.doc.room(utf8(replacement@).len() as int),
        ensures
            final(self)@ == old(self)@.edited_at(
                EditModel {
                    start: range.start as int,
                    end: range.end as int,
                    with: utf8(replacement@),
                },
                now,
            ),
            final(self)@.wf(),
            boundary(final(self)@.doc.text, range.start as int),
            boundary(final(self)@.doc.text, range.start + utf8(replacement@).len()),
    {
        let ghost before = self@;
        self.record_undo(now);
        let edit = Edit { range, replacement };
        let ghost e = edit@;
        proof {
            lemma_edited_at_wf(before, e, now);
        }
        self.apply_edit(&edit);
        assert(self@ =~= before.edited_at(e, now));
    }

    /// Replaces a part of the text by `text`; the caret lands behind it.
    pub fn replace_with_text(&mut self, range: Range<usize>, text: String, now: u64)
        requires
            old(self)@.wf(),
            edit_fits(
                old(self)@.doc.text,
                (EditModel {
                    start: range.start as int,
                    end: range.end as int,
                    with: utf8(text@),
                }),
            ),
            old(self)@.doc.room(utf8(text@).len() as int),
        ensures
            final(self)@ == old(self)@.replaced_range(
                EditModel {
                    start: range.start as int,
                    end: range.end as int,
                    with: utf8(text@),
                },
                now,
            ),
            final(self)@.wf(),
    {
        let start: usize = range.start;
        let n: usize = text::len(text.as_str());
        self.edit_at(range, text, now);
        let total: usize = text::len(self.text.as_str());
        proof {
            lemma_place_at(self@.doc.text, start + n);
        }
        self.set_caret_at(start + n);
        self.break_coalesce();
    }

    /// Replaces a part of the text by `text`, which links to `url`; the caret
    /// lands behind it.
    pub fn replace_with_link(&mut self, range: Range<usize>, text: String, url: String, now: u64)
        requires
            old(self)@.wf(),
            edit_fits(
                old(self)@.doc.text,
                (EditModel {
                    start: range.start as int,
                    end: range.end as int,
                    with: utf8(text@),
                }),
            ),
            old(self)@.doc.room(utf8(text@).len() as int),
        ensures
            final(self)@ == old(self)@.replaced_by_link(
                EditModel {
                    start: range.start as int,
                    end: range.end as int,
                    with: utf8(text@),
                },
                utf8(url@),
                now,
            ),
            final(self)@.wf(),
    {
        let ghost before = self@;
        let ghost e = EditModel {
            start: range.start as int,
            end: range.end as int,
            with: utf8(text@),
        };
        let start: usize = range.start;
        let n: usize = text::len(text.as_str());
        let ghost address = utf8(url@);
        self.edit_at(range, text, now);
        let total: usize = text::len(self.text.as_str());
        let ghost edited = self@;
        if n > 0 {
            self.add_link(start..start + n, url);
        }
        proof {
            lemma_place_at(self@.doc.text, start + n);
        }
        self.set_caret_at(start + n);
        self.break_coalesce();
        assert(self@ =~= before.replaced_by_link(e, address, now));
    }

    /// Replaces a part of the text by `text`, which is committed as a tag where
    /// it starts with `#`; the caret lands behind it.
    pub fn replace_with_tag(&mut self, range: Range<usize>, text: String, now: u64)
        requires
            old(self)@.wf(),
            edit_fits(
                old(self)@.doc.text,
                (EditModel {
                    start: range.start as int,
                    end: range.end as int,
                    with: utf8(text@),
                }),
            ),
            old(self)@.doc.room(utf8(text@).len() as int),
        ensures
            final(self)@ == old(self)@.replaced_by_tag(
                EditModel {
                    start: range.start as int,
                    end: range.end as int,
                    with: utf8(text@),
                },
                now,
            ),
            final(self)@.wf(),
    {
        let ghost before = self@;
        let ghost e = EditModel {
            start: range.start as int,
            end: range.end as int,
            with: utf8(text@),
        };
        let start: usize = range.start;
        let n: usize = text::len(text.as_str());
        self.edit_at(range, text, now);
        let total: usize = text::len(self.text.as_str());
        self.add_tag(start..start + n);
        proof {
            lemma_place_at(self@.doc.text, start + n);
        }
        self.set_caret_at(start + n);
        self.break_coalesce();
        assert(self@ =~= before.replaced_by_tag(e, now));
    }

    /// Replaces the whole text; the caret goes to its start, and links that
    /// reach beyond the new text are dropped.
    pub fn replace_text(&mut self, new_text: String, now: u64)
        requires
            old(self)@.wf(),
        ensures
            final(self)@ == old(self)@.replaced_text(utf8(new_text@), now),
            final(self)@.wf(),
    {
        let ghost before = self@;
        let n: usize = text::len(new_text.as_str());
        self.record_undo(now);
        proof {
            lemma_recorded_wf(before, now);
            lemma_utf8_valid(new_text@);
            lemma_at_start(utf8(new_text@));
        }
        self.keep_links_up_to(n);
        self.text = new_text;
        self.sels = Selections::single_caret(0);
        self.drop_lines();
        self.break_coalesce();
        assert(self@ =~= before.replaced_text(utf8(new_text@), now));
    }

    fn keep_links_up_to(&mut self, n: usize)
        ensures
            final(self)@ == old(self)@.linking(
                old(self)@.doc.links.filter(|l: Link| l.end <= n),
            ),
    {
        let ghost before = self@;
        let ghost ls = before.doc.links;
        let ghost keep = |l: Link| l.end <= n;
        let mut kept: Vec<LinkSpan> = Vec::new();
        let mut i: usize = 0;
        proof {
            reveal(Seq::filter);
            assert(views(kept@) =~= ls.subrange(0, 0).filter(keep));
        }
        while i < self.links.len()
            invariant
                i <= self.links.len(),
                ls == views(self.links@),
                keep == (|l: Link| l.end <= n),
                views(kept@) == ls.subrange(0, i as int).filter(keep),
            decreases self.links.len() - i,
        {
            let ghost prev = kept@;
            proof {
                reveal(Seq::filter);
                let upto = ls.subrange(0, i + 1);
                assert(upto.drop_last() =~= ls.subrange(0, i as int));
                assert(upto.last() == self.links@[i as int]@);
            }
            if self.links[i].range.end <= n {
                kept.push(self.links[i].duplicate());
                assert(views(kept@) =~= views(prev).push(kept@.last()@));
            }
            i += 1;
        }
        assert(ls.subrange(0, i as int) =~= ls);
        self.links = kept;
        assert(self@ =~= before.linking(ls.filter(keep)));
    }

    /// Keeps the links in front of `at` and gives back those behind it, counted
    /// from there; links across `at` are gone.
    pub fn split_links_at(&mut self, at: usize) -> (suffix: Vec<LinkSpan>)
        requires
            old(self)@.wf(),
        ensures
            views(suffix@) == old(self)@.links_after(at as int),
            final(self)@ == old(self)@.linking(old(self)@.links_before(at as int)),
            final(self)@.wf(),
    {
        let ghost before = self@;
        let ghost ls = before.doc.links;
        let ghost f = |l: Link|
            if l.end > at && l.start >= at {
                Some(Link { start: l.start - at, end: l.end - at, url: l.url })
            } else {
                None
            };
        let mut suffix: Vec<LinkSpan> = Vec::new();
        let mut i: usize = 0;
        assert(views(suffix@) =~= ls.subrange(0, 0).filter_map(f));
        while i < self.links.len()
            invariant
                i <= self.links.len(),
                ls == views(self.links@),
                f == (|l: Link|
                    if l.end > at && l.start >= at {
                        Some(Link { start: l.start - at, end: l.end - at, url: l.url })
                    } else {
                        None
                    }),
                views(suffix@) == ls.subrange(0, i as int).filter_map(f),
            decreases self.links.len() - i,
        {
            let ghost prev = suffix@;
            proof {
                let upto = ls.subrange(0, i + 1);
                assert(upto.drop_last() =~= ls.subrange(0, i as int));
                assert(upto.last() == self.links@[i as int]@);
            }
            let l = &self.links[i];
            if l.range.end > at && l.range.start >= at {
                suffix.push(
                    LinkSpan {
                        range: l.range.start - at..l.range.end - at,
                        url: text::copy(l.url.as_str()),
                    },
                );
                assert(views(suffix@) =~= views(prev) + seq![suffix@.last()@]);
            }
            i += 1;
        }
        assert(ls.subrange(0, i as int) =~= ls);
        self.keep_links_up_to(at);
        suffix
    }

    /// Puts `new_text` behind the text, and `extra_links`, counted from its
    /// start, onto it.
    pub fn append_with_links(&mut self, new_text: &str, extra_links: Vec<LinkSpan>)
        requires
            old(self)@.wf(),
            old(self)@.doc.text.len() + utf8(new_text@).len() <= usize::MAX,
            links_room(views(extra_links@), old(self)@.doc.text.len() as int),
        ensures
            final(self)@ == old(self)@.appended(utf8(new_text@), views(extra_links@)),
            final(self)@.wf(),
    {
        let ghost before = self@;
        let ghost b = before.doc.text;
        let offset: usize = text::len(self.text.as_str());
        let ghost extra = views(extra_links@);
        let ghost f = |l: Link| Link { start: l.start + offset, end: l.end + offset, url: l.url };
        proof {
            lemma_utf8_valid(self.text@);
            lemma_utf8_valid(new_text@);
        }
        text::push_str(&mut self.text, new_text);
        self.drop_lines();
        let mut i: usize = 0;
        assert(views(self.links@) =~= before.doc.links + extra.subrange(0, 0).map_values(f));
        while i < extra_links.len()
            invariant
                i <= extra_links.len(),
                extra == views(extra_links@),
                offset == b.len(),
                b == before.doc.text,
                links_room(extra, offset as int),
                f == (|l: Link|
                    Link { start: l.start + offset, end: l.end + offset, url: l.url }),
                views(self.links@) == before.doc.links + extra.subrange(0, i as int).map_values(f),
                self@ == (TextModel {
                    doc: Doc {
                        text: b + utf8(new_text@),
                        links: views(self.links@),
                        ..before.doc
                    },
                    ..before.unwrapped()
                }),
            decreases extra_links.len() - i,
        {
            let ghost prev = self.links@;
            assert(extra[i as int] == extra_links@[i as int]@);
            let l = &extra_links[i];
            self.links.push(
                LinkSpan {
                    range: l.range.start + offset..l.range.end + offset,
                    url: text::copy(l.url.as_str()),
                },
            );
            proof {
                assert(views(self.links@) =~= views(prev).push(self.links@.last()@));
                assert(extra.subrange(0, i + 1).map_values(f) =~= extra.subrange(
                    0,
                    i as int,
                ).map_values(f).push(f(extra[i as int])));
                assert(views(self.links@) =~= before.doc.links + extra.subrange(
                    0,
                    i + 1,
                ).map_values(f));
            }
            i += 1;
        }
        proof {
            assert(extra.subrange(0, i as int) =~= extra);
            assert(self@ =~= before.appended(utf8(new_text@), extra));
            let joined = b + utf8(new_text@);
            assert(utf8(self.text@) == joined);
            lemma_utf8_valid(self.text@);
            lemma_boundary_ends(utf8(new_text@));
            assert forall|k: int| 0 <= k < self@.doc.sels.items.len() implies placed(
                joined,
                #[trigger] self@.doc.sels.items[k],
            ) by {
                let s = before.doc.sels.items[k];
                assert(placed(b, s));
                lemma_boundary_in_front(b, utf8(new_text@), s.anchor as int);
                lemma_boundary_in_front(b, utf8(new_text@), s.head as int);
            }
        }
    }

    /// The text of the primary selection.
    pub fn copy_primary_selection(&self) -> (s: String)
        requires
            self@.wf(),
        ensures
            utf8(s@) == self@.primary_text(),
    {
        if self.sels.primary < self.sels.items.len() {
            let r = self.sels.items[self.sels.primary].range();
            proof {
                assert(placed(self@.doc.text, self.sels.items@[self.sels.primary as int]));
                assert(boundary(self@.doc.text, r.start as int));
                assert(boundary(self@.doc.text, r.end as int));
            }
            text::copy(text::slice(self.text.as_str(), r.start, r.end))
        } else {
            let none = String::new();
            assert(utf8(none@) =~= Seq::<u8>::empty());
            none
        }
    }

    /// The text of the primary selection and the links onto it, counted from its
    /// start; nothing for a caret.
    pub fn copy_primary_selection_with_links(&self) -> (r: Option<(String, Vec<LinkSpan>)>)
        requires
            self@.wf(),
        ensures
            picked_view(r) == self@.picked(),
    {
        if self.sels.primary >= self.sels.items.len() {
            return None;
        }
        let sel: Selection = self.sels.items[self.sels.primary];
        let r = sel.range();
        proof {
            assert(placed(self@.doc.text, self.sels.items@[self.sels.primary as int]));
            assert(boundary(self@.doc.text, r.start as int));
            assert(boundary(self@.doc.text, r.end as int));
        }
        if r.start >= r.end {
            return None;
        }
        let text = self.copy_primary_selection();
        let ghost ls = views(self.links@);
        let ghost f = |l: Link| clipped(l, sel.lo(), sel.hi());
        let mut links: Vec<LinkSpan> = Vec::new();
        let mut i: usize = 0;
        assert(views(links@) =~= ls.subrange(0, 0).filter_map(f));
        while i < self.links.len()
            invariant
                i <= self.links.len(),
                ls == views(self.links@),
                r.start == sel.lo(),
                r.end == sel.hi(),
                f == (|l: Link| clipped(l, sel.lo(), sel.hi())),
                views(links@) == ls.subrange(0, i as int).filter_map(f),
            decreases self.links.len() - i,
        {
            let ghost prev = links@;
            proof {
                let upto = ls.subrange(0, i + 1);
                assert(upto.drop_last() =~= ls.subrange(0, i as int));
                assert(upto.last() == self.links@[i as int]@);
            }
            let l = &self.links[i];
            let start: usize = if l.range.start < r.start {
                r.start
            } else {
                l.range.start
            };
            let end: usize = if l.range.end > r.end {
                r.end
            } else {
                l.range.end
            };
            if start < end {
                links.push(
                    LinkSpan {
                        range: start - r.start..end - r.start,
                        url: text::copy(l.url.as_str()),
                    },
                );
                assert(views(links@) =~= views(prev) + seq![links@.last()@]);
            }
            i += 1;
        }
        assert(ls.subrange(0, i as int) =~= ls);
        Some((text, links))
    }

    /// Cuts the primary selection out and gives back its text.
    pub fn cut_primary_selection(&mut self, now: u64) -> (s: String)
        requires
            old(self)@.wf(),
            old(self)@.doc.room(0),
        ensures
            utf8(s@) == old(self)@.primary_text(),
            final(self)@ == old(self)@.cut(now),
            final(self)@.wf(),
    {
        let ghost before = self@;
        let s = self.copy_primary_selection();
        if self.sels.primary < self.sels.items.len() {
            let sel: Selection = self.sels.items[self.sels.primary];
            if !sel.is_collapsed() {
                proof {
                    reveal_strlit("");
                    assert(utf8(""@) =~= Seq::<u8>::empty());
                    assert(placed(before.doc.text, before.doc.sels.items[before.doc.sels.primary]));
                    lemma_utf8_valid(""@);
                }
                self.edit_at(sel.range(), text::copy(""), now);
                self.break_coalesce();
                assert(self@ =~= before.cut(now));
            }
        }
        s
    }

    /// Puts `s` in place of every selection; the addresses in it become links.
    pub fn paste(&mut self, s: &str, now: u64)
        requires
            old(self)@.wf(),
            old(self)@.can_apply(old(self)@.edits(replacing(utf8(s@)))),
        ensures
            final(self)@ == old(self)@.pasted(utf8(s@), url_links(utf8(s@)), now),
            final(self)@.wf(),
    {
        let urls = detect_urls(s);
        self.paste_spans(s, &urls, now);
    }

    /// Puts `s` in place of every selection, with `links` onto it; where there
    /// are none the addresses in it become links.
    pub fn paste_with_links(&mut self, s: &str, links: &Vec<LinkSpan>, now: u64)
        requires
            old(self)@.wf(),
            old(self)@.can_apply(old(self)@.edits(replacing(utf8(s@)))),
        ensures
            final(self)@ == old(self)@.pasted(
                utf8(s@),
                if links@.len() == 0 {
                    url_links(utf8(s@))
                } else {
                    views(links@)
                },
                now,
            ),
            final(self)@.wf(),
    {
        if links.len() == 0 {
            self.paste(s, now);
        } else {
            self.paste_spans(s, links, now);
        }
    }

    fn paste_spans(&mut self, s: &str, links: &Vec<LinkSpan>, now: u64)
        requires
            old(self)@.wf(),
            old(self)@.can_apply(old(self)@.edits(replacing(utf8(s@)))),
        ensures
            final(self)@ == old(self)@.pasted(utf8(s@), views(links@), now),
            final(self)@.wf(),
    {
        let n: usize = text::len(s);
        if n == 0 {
            return ;
        }
        let ghost before = self@;
        let ghost more = views(links@);
        let total: usize = text::len(self.text.as_str());
        proof {
            lemma_gather_replacing(before.doc.sels.items, utf8(s@));
        }
        let at = self.landing_places(n);
        self.insert_text(s, now);
        let ghost r = self@;
        let len: usize = text::len(self.text.as_str());
        let ghost bases = Seq::new(at@.len(), |i: int| at@[i] as int);
        assert(bases =~= landings(sort_by_start(before.doc.sels.items), n as int, 0, 0));
        let mut i: usize = 0;
        assert(bases.subrange(0, 0) =~= Seq::<int>::empty());
        assert(self@ =~= r.linking(r.doc.links));
        while i < at.len()
            invariant
                i <= at.len(),
                n == utf8(s@).len(),
                len == r.doc.text.len(),
                more == views(links@),
                r.wf(),
                bases == Seq::new(at@.len(), |i: int| at@[i] as int),
                self@ == r.linking(
                    with_links_at_all(
                        r.doc.links,
                        bases.subrange(0, i as int),
                        n as int,
                        len as int,
                        more,
                    ),
                ),
            decreases at.len() - i,
        {
            let base: usize = at[i];
            let ghost was = with_links_at_all(
                r.doc.links,
                bases.subrange(0, i as int),
                n as int,
                len as int,
                more,
            );
            proof {
                let upto = bases.subrange(0, i + 1);
                assert(upto.drop_last() =~= bases.subrange(0, i as int));
                assert(upto.last() == base);
            }
            if n <= len && base <= len - n {
                let mut j: usize = 0;
                assert(more.subrange(0, 0) =~= Seq::<Link>::empty());
                while j < links.len()
                    invariant
                        j <= links.len(),
                        more == views(links@),
                        base + n <= len,
                        self@ == r.linking(
                            with_links_at(
                                was,
                                base as int,
                                n as int,
                                more.subrange(0, j as int),
                            ),
                        ),
                    decreases links.len() - j,
                {
                    let ghost prev = self.links@;
                    proof {
                        let upto = more.subrange(0, j + 1);
                        assert(upto.drop_last() =~= more.subrange(0, j as int));
                        assert(upto.last() == links@[j as int]@);
                    }
                    let l = &links[j];
                    if l.range.start < l.range.end && l.range.end <= n {
                        self.links.push(
                            LinkSpan {
                                range: base + l.range.start..base + l.range.end,
                                url: text::copy(l.url.as_str()),
                            },
                        );
                        assert(views(self.links@) =~= views(prev).push(self.links@.last()@));
                    }
                    j += 1;
                    assert(self@ =~= r.linking(
                        with_links_at(was, base as int, n as int, more.subrange(0, j as int)),
                    ));
                }
                assert(more.subrange(0, j as int) =~= more);
            }
            i += 1;
        }
        assert(bases.subrange(0, i as int) =~= bases);
        self.break_coalesce();
    }

    /// Where the copies of a text of `n` bytes land that is put in place of every
    /// selection.
    fn landing_places(&self, n: usize) -> (at: Vec<usize>)
        requires
            self@.wf(),
            self@.doc.text.len() + self@.doc.sels.items.len() * n <= usize::MAX,
        ensures
            Seq::new(at@.len(), |i: int| at@[i] as int) == landings(
                sort_by_start(self@.doc.sels.items),
                n as int,
                0,
                0,
            ),
    {
        let ghost b = self@.doc.text;
        let sorted = sorted_by_start(&self.sels.items);
        let ghost v = sorted@;
        let count: usize = sorted.len();
        proof {
            let p = |x: int| boundary(b, x);
            assert forall|i: int| 0 <= i < self.sels.items@.len() implies ends_satisfy(
                #[trigger] self.sels.items@[i],
                p,
            ) by {
                assert(placed(b, self.sels.items@[i]));
            }
            lemma_sort_keeps(self.sels.items@, p);
            assert forall|i: int| 0 <= i < v.len() implies (#[trigger] v[i]).hi() <= b.len() by {
                assert(ends_satisfy(v[i], p));
            }
        }
        let mut at: Vec<usize> = Vec::new();
        let mut gained: usize = 0;
        let mut lost: u128 = 0;
        let mut i: usize = 0;
        let ghost mut out = Seq::<int>::empty();
        assert(v.subrange(0, v.len() as int) =~= v);
        assert(out + landings(v, n as int, 0, 0) =~= landings(v, n as int, 0, 0));
        while i < sorted.len()
            invariant
                i <= sorted.len(),
                count == v.len(),
                v == sorted@,
                b.len() + count * n <= usize::MAX,
                gained == i * n,
                lost <= i * usize::MAX,
                forall|k: int| 0 <= k < v.len() ==> (#[trigger] v[k]).hi() <= b.len(),
                out == Seq::new(at@.len(), |k: int| at@[k] as int),
                out + landings(
                    v.subrange(i as int, v.len() as int),
                    n as int,
                    gained as int,
                    lost as int,
                ) == landings(v, n as int, 0, 0),
            decreases sorted.len() - i,
        {
            let r = sorted[i].range();
            let ghost rest = v.subrange(i as int, v.len() as int);
            proof {
                assert(rest[0] == v[i as int]);
                assert(rest.drop_first() =~= v.subrange(i + 1, v.len() as int));
                assert((i + 1) * n == i * n + n) by (nonlinear_arith);
                assert((i + 1) * n <= count * n) by (nonlinear_arith)
                    requires
                        i + 1 <= count,
                ;
                assert((i + 1) * usize::MAX == i * usize::MAX + usize::MAX) by (nonlinear_arith);
                assert((i + 1) * usize::MAX <= usize::MAX * usize::MAX) by (nonlinear_arith)
                    requires
                        i + 1 <= usize::MAX,
                ;
                assert(usize::MAX * usize::MAX <= u128::MAX) by (nonlinear_arith)
                    requires
                        usize::MAX <= 0xffff_ffff_ffff_ffff,
                ;
                assert(v[i as int].hi() <= b.len());
            }
            let reach: u128 = r.start as u128 + gained as u128;
            let landing: usize = if reach > lost {
                (reach - lost) as usize
            } else {
                0
            };
            let ghost prev = at@;
            at.push(landing);
            proof {
                let before = out;
                out = out.push(landing as int);
                assert(out =~= Seq::new(at@.len(), |k: int| at@[k] as int));
                assert(before + landings(rest, n as int, gained as int, lost as int) =~= out
                    + landings(
                    rest.drop_first(),
                    n as int,
                    gained + n,
                    lost + (r.end - r.start),
                ));
            }
            gained += n;
            lost += (r.end - r.start) as u128;
            i += 1;
        }
        proof {
            assert(out + landings(
                v.subrange(i as int, v.len() as int),
                n as int,
                gained as int,
                lost as int,
            ) =~= out);
        }
        at
    }

    /// A fresh text box that is drawn as this one is, at another zoom: text,
    /// heading mode and links are copied, what belongs to viewing is not.
    pub fn clone_for_cache(&self, scale: u32) -> (t: TextBox)
        requires
            self@.wf(),
        ensures
            t@ == self@.cached(scale),
            t@.wf(),
    {
        let mut t = TextBox::new(text::copy(self.text.as_str()));
        let ghost b = self@.doc.text;
        let ghost ls = self@.doc.links;
        let ghost keep = |l: Link| linkable(b, l.start, l.end);
        t.force_heading = self.force_heading;
        t.font_scale = scale;
        let n: usize = text::len(self.text.as_str());
        let mut i: usize = 0;
        proof {
            reveal(Seq::filter);
            assert(views(t.links@) =~= ls.subrange(0, 0).filter(keep));
        }
        while i < self.links.len()
            invariant
                i <= self.links.len(),
                ls == views(self.links@),
                n == b.len(),
                keep == (|l: Link| linkable(b, l.start, l.end)),
                views(t.links@) == ls.subrange(0, i as int).filter(keep),
                t@ == (TextModel {
                    doc: Doc { scale, links: views(t.links@), ..TextModel::fresh(b).doc },
                    force_heading: self.force_heading,
                    ..TextModel::fresh(b)
                }),
                t@.wf(),
            decreases self.links.len() - i,
        {
            let ghost prev = t.links@;
            proof {
                reveal(Seq::filter);
                let upto = ls.subrange(0, i + 1);
                assert(upto.drop_last() =~= ls.subrange(0, i as int));
                assert(upto.last() == self.links@[i as int]@);
            }
            let l = &self.links[i];
            if l.range.start < l.range.end && l.range.end <= n {
                t.links.push(l.duplicate());
                assert(views(t.links@) =~= views(prev).push(t.links@.last()@));
            }
            i += 1;
        }
        assert(ls.subrange(0, i as int) =~= ls);
        assert(t@ =~= self@.cached(scale));
        t
    }

    // -----------------------------------------------------------------------
    // Drawing
    // -----------------------------------------------------------------------

    /// How the text box is drawn: its lines cut into runs, the parts of them
    /// that selections highlight, and where carets stand.
    pub fn draw_plan(&self, focused: bool, show_caret: bool) -> (plan: DrawPlan)
        requires
            self@.wf(),
        ensures
            plan@ == drawn(self@, focused, show_caret),
    {
        let lines = self.drawn_lines();
        let highlights = if focused {
            self.highlights()
        } else {
            Vec::new()
        };
        let carets = if show_caret {
            self.caret_marks()
        } else {
            Vec::new()
        };
        let plan = DrawPlan { lines, highlights, carets };
        assert(plan@ =~= drawn(self@, focused, show_caret));
        plan
    }

    fn drawn_lines(&self) -> (lines: Vec<LinePlan>)
        requires
            self@.wf(),
        ensures
            views(lines@) == Seq::new(self@.lines.len(), |k: int| drawn_line(self@, k)),
    {
        let ghost m = self@;
        let mut lines: Vec<LinePlan> = Vec::new();
        let mut k: usize = 0;
        while k < self.body_lines.len()
            invariant
                k <= self.body_lines.len(),
                m == self@,
                m.wf(),
                views(lines@) == Seq::new(k as nat, |j: int| drawn_line(m, j)),
            decreases self.body_lines.len() - k,
        {
            assert(m.lines[k as int] == span(self.body_lines@[k as int]));
            assert(m.headings.len() == m.lines.len() && m.comments.len() == m.lines.len());
            let line = &self.body_lines[k];
            let seen = line.start..trim_nl_end(self.text.as_str(), line);
            let runs = line_runs(&seen, self.links.as_slice());
            let ghost prev = lines@;
            lines.push(
                LinePlan {
                    seen,
                    heading: self.line_is_heading[k],
                    comment: self.line_is_comment[k],
                    runs,
                },
            );
            proof {
                assert(lines@.last()@ =~= drawn_line(m, k as int));
                assert(views(lines@) =~= views(prev).push(lines@.last()@));
            }
            k += 1;
            assert(views(lines@) =~= Seq::new(k as nat, |j: int| drawn_line(m, j)));
        }
        lines
    }

    fn highlights(&self) -> (out: Vec<HighlightSegment>)
        requires
            self@.wf(),
        ensures
            views(out@) == all_highlights(self@, self@.doc.sels.items.len() as int),
    {
        let ghost m = self@;
        let mut out: Vec<HighlightSegment> = Vec::new();
        let mut i: usize = 0;
        assert(views(out@) =~= Seq::<Segment>::empty());
        proof {
            self.lemma_lines();
        }
        while i < self.sels.items.len()
            invariant
                i <= self.sels.items.len(),
                m == self@,
                m.wf(),
                lines_forward(m.lines),
                views(out@) == all_highlights(m, i as int),
            decreases self.sels.items.len() - i,
        {
            let s: Selection = self.sels.items[i];
            assert(m.doc.sels.items[i as int] == s);
            if !s.is_collapsed() {
                let r = s.range();
                let ghost start = views(out@);
                let mut k: usize = 0;
                assert(start + highlights(m, s.lo(), s.hi(), 0) =~= start);
                while k < self.body_lines.len()
                    invariant
                        k <= self.body_lines.len(),
                        m == self@,
                        lines_forward(m.lines),
                        r.start == s.lo(),
                        r.end == s.hi(),
                        views(out@) == start + highlights(m, s.lo(), s.hi(), k as int),
                    decreases self.body_lines.len() - k,
                {
                    assert(m.lines[k as int] == span(self.body_lines@[k as int]));
                    let line = &self.body_lines[k];
                    assert(m.lines[k as int].start <= m.lines[k as int].end);
                    let seen: usize = trim_nl_end(self.text.as_str(), line);
                    let from: usize = if r.start < line.start {
                        line.start
                    } else {
                        r.start
                    };
                    let lo: usize = if from < seen {
                        from
                    } else {
                        seen
                    };
                    let hi: usize = if r.end < seen {
                        r.end
                    } else {
                        seen
                    };
                    let ghost prev = out@;
                    if lo < hi {
                        out.push(
                            HighlightSegment {
                                line: k,
                                start: lo - line.start,
                                end: hi - line.start,
                            },
                        );
                        proof {
                            assert(views(out@) =~= views(prev).push(out@.last()@));
                            assert(highlight(m, s.lo(), s.hi(), k as int) == Some(out@.last()@));
                            assert(views(out@) =~= start + highlights(m, s.lo(), s.hi(), k + 1));
                        }
                    } else {
                        assert(highlight(m, s.lo(), s.hi(), k as int) is None);
                    }
                    k += 1;
                }
            }
            i += 1;
        }
        out
    }

    fn caret_marks(&self) -> (out: Vec<(usize, usize)>)
        requires
            self@.wf(),
        ensures
            pairs(out@) == Seq::new(
                self@.doc.sels.items.len(),
                |i: int| caret_mark(self@, self@.doc.sels.items[i]),
            ),
    {
        let ghost m = self@;
        let mut out: Vec<(usize, usize)> = Vec::new();
        let mut i: usize = 0;
        proof {
            self.lemma_lines();
        }
        while i < self.sels.items.len()
            invariant
                i <= self.sels.items.len(),
                m == self@,
                m.wf(),
                lines_forward(m.lines),
                pairs(out@) == Seq::new(
                    i as nat,
                    |j: int| caret_mark(m, m.doc.sels.items[j]),
                ),
            decreases self.sels.items.len() - i,
        {
            let s: Selection = self.sels.items[i];
            assert(m.doc.sels.items[i as int] == s);
            let mark = self.mark_of(s.head, s.affinity);
            let ghost prev = out@;
            out.push(mark);
            i += 1;
            proof {
                assert(pairs(out@) =~= pairs(prev).push((mark.0 as int, mark.1 as int)));
                assert(pairs(out@) =~= Seq::new(
                    i as nat,
                    |j: int| caret_mark(m, m.doc.sels.items[j]),
                ));
            }
        }
        out
    }

    fn mark_of(&self, head: usize, affinity: Affinity) -> (r: (usize, usize))
        requires
            self@.wf(),
        ensures
            (r.0 as int, r.1 as int) == caret_mark(
                self@,
                Selection { anchor: head, head, affinity },
            ),
    {
        if self.body_lines.len() == 0 {
            return (0, 0);
        }
        proof {
            self.lemma_lines();
            lemma_caret_place(self@.lines, head as int, affinity);
        }
        let (li, offset) = locate_caret(self.body_lines.as_slice(), head, affinity);
        assert(self@.lines[li as int] == span(self.body_lines@[li as int]));
        let line = &self.body_lines[li];
        let seen: usize = trim_nl_end(self.text.as_str(), line);
        if line.start + offset < seen {
            (li, offset)
        } else {
            (li, seen - line.start)
        }
    }

    /// Where the byte `byte` is drawn: its visual line, and how much of that line
    /// is in front of it; nothing where the text has not been wrapped.
    pub fn place_of_byte(&self, byte: usize) -> (r: Option<(usize, usize)>)
        requires
            self@.wf(),
        ensures
            r == (if self@.lines.len() == 0 {
                None
            } else {
                let at = caret_mark(
                    self@,
                    Selection { anchor: byte, head: byte, affinity: Affinity::Downstream },
                );
                Some((at.0 as usize, at.1 as usize))
            }),
    {
        if self.body_lines.len() == 0 {
            None
        } else {
            Some(self.mark_of(byte, Affinity::Downstream))
        }
    }

    /// The visual lines that start a paragraph, with whether they are headings.
    pub fn source_lines(&self) -> (out: Vec<(usize, bool)>)
        requires
            self@.wf(),
        ensures
            Seq::new(out@.len(), |i: int| (out@[i].0 as int, out@[i].1)) == paragraph_starts(
                self@,
                self@.lines.len() as int,
            ),
    {
        let ghost m = self@;
        let bytes = self.text.as_str().as_bytes();
        let mut out: Vec<(usize, bool)> = Vec::new();
        let mut k: usize = 0;
        assert(Seq::new(out@.len(), |i: int| (out@[i].0 as int, out@[i].1))
            =~= paragraph_starts(m, 0));
        while k < self.body_lines.len()
            invariant
                k <= self.body_lines.len(),
                m == self@,
                m.wf(),
                bytes@ == m.doc.text,
                Seq::new(out@.len(), |i: int| (out@[i].0 as int, out@[i].1)) == paragraph_starts(
                    m,
                    k as int,
                ),
            decreases self.body_lines.len() - k,
        {
            assert(m.lines[k as int] == span(self.body_lines@[k as int]));
            let start: usize = self.body_lines[k].start;
            let ghost prev = out@;
            if start == 0 || (start <= bytes.len() && bytes[start - 1] == 10) {
                out.push((k, self.line_is_heading[k]));
                assert(Seq::new(out@.len(), |i: int| (out@[i].0 as int, out@[i].1)) =~= Seq::new(
                    prev.len(),
                    |i: int| (prev[i].0 as int, prev[i].1),
                ).push((k as int, m.headings[k as int])));
            }
            k += 1;
        }
        out
    }

    /// The line among `count` that a pointer is on: the first whose bottom it is
    /// above, or the last. `above(k)` tells whether it is above the bottom of
    /// line `k`.
    pub fn find_line_at_y<F: Fn(usize, usize) -> bool>(count: usize, above: &F) -> (k: usize)
        requires
            decided(*above),
            count > 0,
        ensures
            k == band_from(count as int, 0, |k: int| measure(*above)(k, k)),
            k < count,
    {
        let ghost f = |k: int| measure(*above)(k, k);
        let mut k: usize = 0;
        while k + 1 < count && !above(k, k)
            invariant
                decided(*above),
                k < count,
                f == (|k: int| measure(*above)(k, k)),
                band_from(count as int, 0, f) == band_from(count as int, k as int, f),
            decreases count - k,
        {
            k += 1;
        }
        k
    }

    /// The byte and side that a pointer on line `line_idx` hits: the end of a
    /// character that it is nearest to. `reaches(start, o)` tells whether the
    /// glyphs of the line up to byte `o` reach the pointer, `nearer(p, o)` whether
    /// it is nearer to byte `p` than to byte `o`.
    pub fn hit_test<F: Fn(usize, usize) -> bool, G: Fn(usize, usize) -> bool>(
        &self,
        line_idx: usize,
        reaches: &F,
        nearer: &G,
    ) -> (r: (usize, Affinity))
        requires
            self@.wf(),
            decided(*reaches),
            decided(*nearer),
            self@.lines.len() > 0 ==> line_idx < self@.lines.len(),
        ensures
            (r.0 as int, r.1) == hit(
                self@,
                line_idx as int,
                measure(*reaches),
                measure(*nearer),
            ),
            boundary(self@.doc.text, r.0 as int),
    {
        proof {
            lemma_utf8_valid(self.text@);
            lemma_boundary_ends(self@.doc.text);
        }
        if self.body_lines.len() == 0 {
            return (0, Affinity::Downstream);
        }
        let ghost m = self@;
        let ghost b = m.doc.text;
        proof {
            self.lemma_lines();
            assert(m.lines[line_idx as int] == span(self.body_lines@[line_idx as int]));
        }
        let line = &self.body_lines[line_idx];
        let start: usize = line.start;
        let seen: usize = trim_nl_end(self.text.as_str(), line);
        let ghost rf = measure(*reaches);
        let ghost nf = measure(*nearer);
        proof {
            assert(m.lines[line_idx as int].start <= m.lines[line_idx as int].end);
            if seen < line.end {
                lemma_ascii_is_boundary(b, seen as int);
            }
            lemma_hit(b, start as int, seen as int, start as int, rf, nf);
        }
        let mut prev: usize = start;
        let mut off: usize = next_char_boundary(self.text.as_str(), start);
        proof {
            lemma_next_boundary(b, start as int);
        }
        while off < seen && off > prev && !reaches(start, off)
            invariant
                decided(*reaches),
                b == utf8(self.text@),
                seen <= b.len(),
                prev <= seen,
                off == next_boundary(b, prev as int),
                rf == measure(*reaches),
                hit_from(b, start as int, seen as int, start as int, rf, nf) == hit_from(
                    b,
                    start as int,
                    seen as int,
                    prev as int,
                    rf,
                    nf,
                ),
            decreases seen - prev,
        {
            prev = off;
            off = next_char_boundary(self.text.as_str(), prev);
            proof {
                lemma_next_boundary(b, prev as int);
            }
        }
        let idx: usize = if off >= seen || off <= prev {
            if nearer(prev, seen) {
                prev
            } else {
                seen
            }
        } else if nearer(prev, off) {
            prev
        } else {
            off
        };
        (idx, hit_affinity(line_idx, idx, self.body_lines.as_slice()))
    }
}

/// Pairs of offsets as integers.
pub open spec fn pairs(v: Seq<(usize, usize)>) -> Seq<(int, int)> {
    Seq::new(v.len(), |i: int| (v[i].0 as int, v[i].1 as int))
}

/// The part of a visual line, counted from its start, that is highlighted.
pub struct HighlightSegment {
    pub line: usize,
    pub start: usize,
    pub end: usize,
}

impl View for HighlightSegment {
    type V = Segment;

    open spec fn view(&self) -> Segment {
        Segment { line: self.line as int, start: self.start as int, end: self.end as int }
    }
}

/// How a visual line is drawn.
pub struct LinePlan {
    pub seen: Range<usize>,
    pub heading: bool,
    pub comment: bool,
    pub runs: Vec<Run>,
}

impl View for LinePlan {
    type V = LineModel;

    open spec fn view(&self) -> LineModel {
        LineModel {
            seen: span(self.seen),
            heading: self.heading,
            comment: self.comment,
            runs: views(self.runs@),
        }
    }
}

/// How a text box is drawn.
pub struct DrawPlan {
    pub lines: Vec<LinePlan>,
    pub highlights: Vec<HighlightSegment>,
    /// Line and offset in the line of each caret.
    pub carets: Vec<(usize, usize)>,
}

impl View for DrawPlan {
    type V = DrawModel;

    open spec fn view(&self) -> DrawModel {
        DrawModel {
            lines: views(self.lines@),
            highlights: views(self.highlights@),
            carets: pairs(self.carets@),
        }
    }
}

/// An offset of `b` stays one when a text is put behind `b`.
proof fn lemma_boundary_in_front(b: Seq<u8>, more: Seq<u8>, i: int)
    requires
        boundary(b, i),
        valid_utf8(more),
    ensures
        boundary(b + more, i),
{
    lemma_boundary_ends(more);
    if i < b.len() {
        assert((b + more)[i] == b[i]);
    } else if i < (b + more).len() {
        assert((b + more)[i] == more[0]);
    }
}

/// The tag that a link marks.
fn link_tag(l: &LinkSpan) -> (r: Option<&str>)
    ensures
        match r {
            Some(name) => tag_named(l@) == Some(utf8(name@)),
            None => tag_named(l@) is None,
        },
{
    match tag_name_from_url(l.url.as_str()) {
        Some(name) => if l.range.end > l.range.start && l.range.end - l.range.start > 1
            && text::len(name) > 0 {
            Some(name)
        } else {
            None
        },
        None => None,
    }
}

/// The bytes of each of `names`.
pub open spec fn bytes_of(names: Seq<String>) -> Seq<Seq<u8>> {
    names.map_values(|s: String| utf8(s@))
}

/// Puts `name` behind `names`, unless it is among them.
pub fn push_distinct(names: &mut Vec<String>, name: &str)
    ensures
        bytes_of(final(names)@) == with_name(bytes_of(old(names)@), utf8(name@)),
{
    let ghost all = bytes_of(names@);
    let mut i: usize = 0;
    while i < names.len()
        invariant
            i <= names.len(),
            all == bytes_of(names@),
            forall|k: int| 0 <= k < i ==> #[trigger] all[k] != utf8(name@),
        decreases names.len() - i,
    {
        assert(all[i as int] == utf8(names@[i as int]@));
        if text::same(names[i].as_str(), name) {
            assert(all.contains(utf8(name@)));
            return ;
        }
        i += 1;
    }
    assert(!all.contains(utf8(name@)));
    names.push(text::copy(name));
    assert(bytes_of(names@) =~= all.push(utf8(name@)));
}

/// Whether `s` is text that a key types.
pub fn is_printable(s: &str) -> (r: bool)
    ensures
        r == printable(s@),
{
    let n: usize = s.unicode_len();
    let mut i: usize = 0;
    while i < n
        invariant
            n == s@.len(),
            i <= n,
            forall|j: int| 0 <= j < i ==> !control(#[trigger] s@[j]),
        decreases n - i,
    {
        let c: char = s.get_char(i);
        if c <= '\u{1f}' || ('\u{7f}' <= c && c <= '\u{9f}') {
            assert(control(s@[i as int]));
            return false;
        }
        i += 1;
    }
    n > 0
}

/// What a click selects: a caret, with a second click a word, with a third a
/// line; and what a drag from there extends by.
fn resolve_click_unit(
    text: &str,
    body_lines: &[Range<usize>],
    idx: usize,
    affinity: Affinity,
    click_count: u8,
) -> (r: (Selection, DragKind))
    requires
        lines_forward(spans(body_lines@)),
    ensures
        (r.0, r.1@) == click_unit(
            utf8(text@),
            spans(body_lines@),
            idx as int,
            affinity,
            click_count as int,
        ),
{
    if click_count == 2 {
        let word = find_word_at(text, idx);
        (
            Selection { anchor: word.start, head: word.end, affinity: Affinity::Downstream },
            DragKind::Word(word),
        )
    } else if click_count == 3 {
        let line = find_line_at(body_lines, idx, affinity);
        let head_aff = if line.end == text::len(text) {
            Affinity::Downstream
        } else {
            Affinity::Upstream
        };
        (
            Selection { anchor: line.start, head: line.end, affinity: head_aff },
            DragKind::Line(line),
        )
    } else {
        (Selection { anchor: idx, head: idx, affinity }, DragKind::Char)
    }
}

proof fn lemma_caret_place_in(lines: Seq<Span>, idx: int, affinity: Affinity)
    requires
        lines_forward(lines),
    ensures
        lines.len() > 0 ==> 0 <= caret_place(lines, idx, affinity).0 < lines.len(),
{
    if lines.len() > 0 {
        lemma_caret_place(lines, idx, affinity);
    }
}

/// A selected text with its links, as it is modelled.
pub open spec fn picked_view(r: Option<(String, Vec<LinkSpan>)>) -> Option<(Seq<u8>, Seq<Link>)> {
    match r {
        Some((text, links)) => Some((utf8(text@), views(links@))),
        None => None,
    }
}

} // verus!
