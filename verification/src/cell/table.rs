//! `TableCell`: a grid of texts, each edited on its own. One entry has the focus;
//! Tab and arrows at the edge of its text move the focus on.
use std::ops::Range;
use vstd::prelude::*;
use vstd::utf8::*;

use crate::text;
use crate::cell::body::{edit_of, link_urls, push_link_urls, tag_names, Replacement, TextOp};
use crate::cell::bullets::{caret_put, zoomed};
use crate::cell::common::{Affinity, Key, KeyEvent, Link, LinkSpan, Modifiers};
use crate::cell::model::{
    after_drag, after_key, after_mouse_down, all_selected, band_from, DEFAULT_SCALE, drag_fits,
    edit_fits, key_edits, line_count, primary_ends, primary_line, replacing, with_link, Click, Doc,
    TextModel,
};
use crate::cell::outline::{lemma_fresh_wf, pasted_links};
use crate::cell::textbox::{bytes_of, optional_bytes, picked_view, TextBox, TextBoxSnapshot};
use crate::cell::urls::url_links;
use crate::cell::wrap::{copy_range, decided, measure};
use crate::text::{blank, boundary, utf8, views};

verus! {

/// How many rows a new table has.
pub const TABLE_DEFAULT_ROWS: usize = 3;

/// How many columns a new table has.
pub const TABLE_DEFAULT_COLS: usize = 3;

/// One entry of a table.
#[verifier::ext_equal]
pub struct EntryModel {
    pub text: TextModel,
    /// The entry can be read and selected, not edited.
    pub readonly: bool,
}

impl EntryModel {
    /// With another text.
    pub open spec fn saying(self, text: TextModel) -> EntryModel {
        EntryModel { text, ..self }
    }

    /// An empty entry.
    pub open spec fn fresh() -> EntryModel {
        EntryModel { text: TextModel::fresh(Seq::empty()), readonly: false }
    }
}

/// The whole state of a table.
#[verifier::ext_equal]
pub struct TableModel {
    /// The entries, row by row.
    pub cells: Seq<Seq<EntryModel>>,
    pub focused: (usize, usize),
    pub scale: u32,
}

/// What a key makes of a table, whether it was taken, and whether the edit it
/// asks for can be made.
#[verifier::ext_equal]
pub struct TableStep {
    pub m: TableModel,
    pub done: bool,
    pub fits: bool,
}

/// Every text of a grid is well formed.
pub open spec fn grid_wf(cells: Seq<Seq<EntryModel>>) -> bool {
    forall|r: int, c: int|
        #![trigger cells[r][c]]
        0 <= r < cells.len() && 0 <= c < cells[r].len() ==> cells[r][c].text.wf()
}

/// Every row of a grid has `cols` entries.
pub open spec fn rectangular(cells: Seq<Seq<EntryModel>>, cols: int) -> bool {
    forall|r: int| 0 <= r < cells.len() ==> (#[trigger] cells[r]).len() == cols
}

/// A grid of empty entries.
pub open spec fn empty_grid(rows: int, cols: int) -> Seq<Seq<EntryModel>> {
    Seq::new(rows as nat, |r: int| Seq::new(cols as nat, |c: int| EntryModel::fresh()))
}

/// Every text of a grid mapped by `f`.
pub open spec fn grid_mapped(
    cells: Seq<Seq<EntryModel>>,
    f: spec_fn(TextModel) -> TextModel,
) -> Seq<Seq<EntryModel>> {
    Seq::new(cells.len(), |r: int| row_mapped(cells[r], f))
}

/// Every text of a row mapped by `f`.
pub open spec fn row_mapped(
    row: Seq<EntryModel>,
    f: spec_fn(TextModel) -> TextModel,
) -> Seq<EntryModel> {
    Seq::new(row.len(), |c: int| row[c].saying(f(row[c].text)))
}

/// The texts of a row.
pub open spec fn row_texts(row: Seq<EntryModel>) -> Seq<TextModel> {
    Seq::new(row.len(), |c: int| row[c].text)
}

/// A row as text: its entries with tabs between them.
pub open spec fn row_joined(row: Seq<EntryModel>, n: int) -> Seq<u8>
    decreases n,
{
    if n <= 0 {
        Seq::empty()
    } else if n == 1 {
        row[0].text.doc.text
    } else {
        row_joined(row, n - 1) + seq![9u8] + row[n - 1].text.doc.text
    }
}

/// A grid as text: its rows with line feeds between them.
pub open spec fn grid_joined(cells: Seq<Seq<EntryModel>>, n: int) -> Seq<u8>
    decreases n,
{
    if n <= 0 {
        Seq::empty()
    } else if n == 1 {
        row_joined(cells[0], cells[0].len() as int)
    } else {
        grid_joined(cells, n - 1) + seq![10u8] + row_joined(
            cells[n - 1],
            cells[n - 1].len() as int,
        )
    }
}

/// The first entry of a row, from column `c` on, of which `p` holds; the length of
/// the row where there is none.
pub open spec fn row_first(row: Seq<EntryModel>, p: spec_fn(TextModel) -> bool, c: int) -> int
    decreases row.len() - c,
{
    if c < 0 || c >= row.len() {
        row.len() as int
    } else if p(row[c].text) {
        c
    } else {
        row_first(row, p, c + 1)
    }
}

/// The first entry, row by row from row `r` on, of which `p` holds.
pub open spec fn grid_first(
    cells: Seq<Seq<EntryModel>>,
    p: spec_fn(TextModel) -> bool,
    r: int,
) -> Option<(int, int)>
    decreases cells.len() - r,
{
    if r < 0 || r >= cells.len() {
        None
    } else {
        let c = row_first(cells[r], p, 0);
        if c < cells[r].len() {
            Some((r, c))
        } else {
            grid_first(cells, p, r + 1)
        }
    }
}

impl TableModel {
    /// Every text is well formed.
    pub open spec fn wf(self) -> bool {
        grid_wf(self.cells)
    }

    /// The number of columns: that of the first row.
    pub open spec fn width(self) -> int {
        if self.cells.len() == 0 {
            0
        } else {
            self.cells[0].len() as int
        }
    }

    /// There is an entry at `r`, `c`.
    pub open spec fn holds(self, r: int, c: int) -> bool {
        0 <= r < self.cells.len() && 0 <= c < self.cells[r].len()
    }

    /// With the entry at `r`, `c` saying something else.
    pub open spec fn saying(self, r: int, c: int, text: TextModel) -> TableModel {
        TableModel {
            cells: self.cells.update(
                r,
                self.cells[r].update(c, self.cells[r][c].saying(text)),
            ),
            ..self
        }
    }

    /// A new table.
    pub open spec fn fresh(rows: int, cols: int) -> TableModel {
        TableModel {
            cells: empty_grid(
                if rows < 1 {
                    1
                } else {
                    rows
                },
                if cols < 1 {
                    1
                } else {
                    cols
                },
            ),
            focused: (0, 0),
            scale: DEFAULT_SCALE,
        }
    }

    /// The focus moved to `r`, `c`: selections in the entry that had it collapse,
    /// and the caret goes to the end of the one that gets it.
    pub open spec fn focusing(self, r: usize, c: usize) -> TableModel {
        if (r, c) == self.focused {
            self
        } else {
            let (pr, pc) = (self.focused.0 as int, self.focused.1 as int);
            let left = if self.holds(pr, pc) {
                match primary_ends(self.cells[pr][pc].text) {
                    Some((_, head)) => self.saying(
                        pr,
                        pc,
                        caret_put(self.cells[pr][pc].text, head as int),
                    ),
                    None => self,
                }
            } else {
                self
            };
            let there = TableModel { focused: (r, c), ..left };
            if there.holds(r as int, c as int) {
                let t = there.cells[r as int][c as int].text;
                there.saying(r as int, c as int, caret_put(t, t.doc.text.len() as int))
            } else {
                there
            }
        }
    }

    /// Where the focus goes one entry on, or back, row by row.
    pub open spec fn next_entry(self, forward: bool) -> Option<(int, int)> {
        let (r, c) = (self.focused.0 as int, self.focused.1 as int);
        if forward {
            if c + 1 < self.width() {
                Some((r, c + 1))
            } else if r + 1 < self.cells.len() {
                Some((r + 1, 0int))
            } else {
                None
            }
        } else if c > 0 {
            Some((r, c - 1))
        } else if r > 0 {
            Some((r - 1, self.width() - 1))
        } else {
            None
        }
    }

    /// The focus moved one entry on, or back; at the last, or first, it stays.
    pub open spec fn stepped(self, forward: bool) -> TableModel {
        match self.next_entry(forward) {
            Some((r, c)) => self.focusing(r as usize, c as usize),
            None => self,
        }
    }

    /// Where an arrow at the edge of the focused text takes the focus.
    pub open spec fn crossing(self, key: Key) -> Option<(int, int)> {
        let (r, c) = (self.focused.0 as int, self.focused.1 as int);
        let there = self.holds(r, c);
        let t = self.cells[r][c].text;
        let head: int = match primary_ends(t) {
            Some((_, h)) => h as int,
            None => 0,
        };
        match key {
            Key::ArrowUp => if (!there || primary_line(t) == 0) && r > 0 {
                Some((r - 1, c))
            } else {
                None
            },
            Key::ArrowDown => if (!there || primary_line(t) + 1 >= line_count(t)) && r + 1
                < self.cells.len() {
                Some((r + 1, c))
            } else {
                None
            },
            Key::ArrowLeft => if (!there || head == 0) && c > 0 {
                Some((r, c - 1))
            } else {
                None
            },
            Key::ArrowRight => if (!there || head == t.doc.text.len()) && c + 1 < self.width() {
                Some((r, c + 1))
            } else {
                None
            },
            _ => None,
        }
    }

    /// What a key event makes of a table.
    pub open spec fn after_key(self, ev: KeyEvent, mods: Modifiers, now: u64) -> TableStep {
        let (r, c) = (self.focused.0 as int, self.focused.1 as int);
        if !ev.pressed {
            TableStep { m: self, done: false, fits: true }
        } else if ev.key == Key::Tab {
            TableStep { m: self.stepped(!mods.shift), done: true, fits: true }
        } else if !mods.shift && self.crossing(ev.key) is Some {
            let to = self.crossing(ev.key)->0;
            TableStep { m: self.focusing(to.0 as usize, to.1 as usize), done: true, fits: true }
        } else if !self.holds(r, c) || (self.cells[r][c].readonly && edits_text(ev.key)) {
            TableStep { m: self, done: false, fits: true }
        } else {
            let t = self.cells[r][c].text;
            let after = after_key(t, ev, mods, now);
            TableStep {
                m: self.saying(r, c, after.0),
                done: after.1,
                fits: t.can_apply(key_edits(t, ev, mods)),
            }
        }
    }

    /// A press of the mouse button on the entry at `r`, `c`.
    pub open spec fn pressed(
        self,
        r: usize,
        c: usize,
        click: Click,
        mods: Modifiers,
        editing: bool,
    ) -> TableModel {
        let m = self.focusing(r, c);
        let e = m.cells[r as int][c as int];
        m.saying(
            r as int,
            c as int,
            after_mouse_down(e.text, click, mods, editing && !e.readonly),
        )
    }

    /// What copying gives: what is selected in the first entry that has anything
    /// selected.
    pub open spec fn copied(self) -> Seq<u8> {
        match grid_first(self.cells, |t: TextModel| t.primary_text().len() > 0, 0) {
            Some((r, c)) => self.cells[r][c].text.primary_text(),
            None => Seq::empty(),
        }
    }

    /// What is selected in the focused entry.
    pub open spec fn focused_selection(self) -> Seq<u8> {
        let (r, c) = (self.focused.0 as int, self.focused.1 as int);
        if self.holds(r, c) {
            self.cells[r][c].text.primary_text()
        } else {
            Seq::empty()
        }
    }

    /// The focused text replaced by `f`, unless it can only be read.
    pub open spec fn focused_edited(self, f: spec_fn(TextModel) -> TextModel) -> TableModel {
        let (r, c) = (self.focused.0 as int, self.focused.1 as int);
        if self.holds(r, c) && !self.cells[r][c].readonly {
            self.saying(r, c, f(self.cells[r][c].text))
        } else {
            self
        }
    }

    /// A link attached to the first entry.
    pub open spec fn first_linked(self, start: int, end: int, url: Seq<u8>) -> TableModel {
        if self.holds(0, 0) {
            let t = self.cells[0][0].text;
            self.saying(0, 0, t.linking(with_link(t.doc.text, t.doc.links, start, end, url)))
        } else {
            self
        }
    }

    /// The focus in the first entry, the caret at its start.
    pub open spec fn caret_at_start(self) -> TableModel {
        if self.holds(0, 0) {
            let m = self.focusing(0, 0);
            m.saying(0, 0, caret_put(m.cells[0][0].text, 0))
        } else {
            self
        }
    }

    /// The focus in the last entry, the caret at its end.
    pub open spec fn caret_at_end(self) -> TableModel {
        let r = self.cells.len() - 1;
        let c = self.cells[r].len() - 1;
        if self.holds(r, c) {
            let m = self.focusing(r as usize, c as usize);
            let t = m.cells[r][c].text;
            m.saying(r, c, caret_put(t, t.doc.text.len() as int))
        } else {
            self
        }
    }

    /// What is selected in the first entry that has anything selected, with its
    /// links.
    pub open spec fn picked(self) -> Option<(Seq<u8>, Seq<Link>)> {
        match grid_first(self.cells, |t: TextModel| t.primary_text().len() > 0, 0) {
            Some((r, c)) => self.cells[r][c].text.picked(),
            None => None,
        }
    }

    /// There is a focused entry that can be edited.
    pub open spec fn editable(self) -> bool {
        let (r, c) = (self.focused.0 as int, self.focused.1 as int);
        self.holds(r, c) && !self.cells[r][c].readonly
    }

    /// The text of the focused entry.
    pub open spec fn focused_text(self) -> TextModel {
        self.cells[self.focused.0 as int][self.focused.1 as int].text
    }
}

/// A key that edits a text, or types.
pub open spec fn edits_text(key: Key) -> bool {
    match key {
        Key::Backspace | Key::Delete | Key::Enter | Key::Modifier | Key::Other => true,
        _ => false,
    }
}

/// One step on and one step back, or the other way round, the focus is where it
/// was.
pub proof fn stepping_back_returns_the_focus(m: TableModel, forward: bool)
    requires
        m.width() > 0,
        m.cells.len() <= usize::MAX,
        m.width() <= usize::MAX,
        m.focused.0 < m.cells.len(),
        m.focused.1 < m.width(),
        m.next_entry(forward) is Some,
    ensures
        m.stepped(forward).stepped(!forward).focused == m.focused,
{
    let to = m.next_entry(forward)->0;
    let there = m.stepped(forward);
    lemma_focusing_shape(m, to.0 as usize, to.1 as usize);
    let back = there.next_entry(!forward);
    assert(back == Some((m.focused.0 as int, m.focused.1 as int)));
    lemma_focusing_shape(there, m.focused.0, m.focused.1);
}

/// Moving the focus keeps the shape of a table.
pub proof fn lemma_focusing_shape(m: TableModel, r: usize, c: usize)
    ensures
        m.focusing(r, c).focused == (r, c),
        m.focusing(r, c).cells.len() == m.cells.len(),
        m.focusing(r, c).width() == m.width(),
        forall|i: int|
            0 <= i < m.cells.len() ==> (#[trigger] m.focusing(r, c).cells[i]).len()
                == m.cells[i].len(),
{
}

/// `links` with those of `more` that lie in the text.
pub open spec fn with_links(text: Seq<u8>, links: Seq<Link>, more: Seq<Link>) -> Seq<Link>
    decreases more.len(),
{
    if more.len() == 0 {
        links
    } else {
        let l = more.last();
        with_link(text, with_links(text, links, more.drop_last()), l.start, l.end, l.url)
    }
}

/// A stored entry: text, links and whether it can only be read.
#[verifier::ext_equal]
pub struct RecordModel {
    pub text: Seq<u8>,
    pub links: Seq<Link>,
    pub readonly: bool,
}

impl RecordModel {
    /// The entry made of it.
    pub open spec fn entry(self) -> EntryModel {
        let t = TextModel::fresh(self.text);
        EntryModel {
            text: t.linking(with_links(self.text, Seq::empty(), self.links)),
            readonly: self.readonly,
        }
    }
}

/// The row made of stored entries, filled up with empty ones to `cols`.
pub open spec fn row_of_records(row: Seq<RecordModel>, cols: int) -> Seq<EntryModel> {
    Seq::new(
        if row.len() < cols {
            cols as nat
        } else {
            row.len()
        },
        |c: int|
            if c < row.len() {
                row[c].entry()
            } else {
                EntryModel::fresh()
            },
    )
}

/// The table made of stored entries: rows shorter than the first are filled up.
pub open spec fn table_of_records(rows: Seq<Seq<RecordModel>>) -> TableModel {
    let cols: int = if rows.len() > 0 && rows[0].len() > 0 {
        rows[0].len() as int
    } else {
        1
    };
    TableModel {
        cells: Seq::new(rows.len(), |r: int| row_of_records(rows[r], cols)),
        focused: (0, 0),
        scale: DEFAULT_SCALE,
    }
}

/// The row filled up with empty entries to `cols`.
pub open spec fn filled_row(row: Seq<EntryModel>, cols: int) -> Seq<EntryModel> {
    Seq::new(
        if row.len() < cols {
            cols as nat
        } else {
            row.len()
        },
        |c: int|
            if c < row.len() {
                row[c]
            } else {
                EntryModel::fresh()
            },
    )
}

/// The table of entries that are there already: rows shorter than the first are
/// filled up.
pub open spec fn table_of_entries(rows: Seq<Seq<EntryModel>>) -> TableModel {
    let cols: int = if rows.len() > 0 && rows[0].len() > 0 {
        rows[0].len() as int
    } else {
        1
    };
    TableModel {
        cells: Seq::new(rows.len(), |r: int| filled_row(rows[r], cols)),
        focused: (0, 0),
        scale: DEFAULT_SCALE,
    }
}

/// What undo restores of an entry.
#[verifier::ext_equal]
pub struct EntryDoc {
    pub doc: Doc,
    pub readonly: bool,
}

/// What undo restores of a table.
pub open spec fn grid_docs(cells: Seq<Seq<EntryModel>>) -> Seq<Seq<EntryDoc>> {
    Seq::new(cells.len(), |r: int| row_docs(cells[r]))
}

/// What undo restores of a row.
pub open spec fn row_docs(row: Seq<EntryModel>) -> Seq<EntryDoc> {
    Seq::new(row.len(), |c: int| EntryDoc { doc: row[c].text.doc, readonly: row[c].readonly })
}

/// The entry made anew.
pub open spec fn restored_entry(d: EntryDoc, scale: u32) -> EntryModel {
    EntryModel {
        text: zoomed(TextModel::fresh(Seq::empty()), scale).restored(d.doc),
        readonly: d.readonly,
    }
}

/// The row made anew.
pub open spec fn restored_row(row: Seq<EntryDoc>, scale: u32) -> Seq<EntryModel> {
    Seq::new(row.len(), |c: int| restored_entry(row[c], scale))
}

/// The grid made anew.
pub open spec fn restored_grid(docs: Seq<Seq<EntryDoc>>, scale: u32) -> Seq<Seq<EntryModel>> {
    Seq::new(docs.len(), |r: int| restored_row(docs[r], scale))
}

/// Every document of a stored grid is well formed.
pub open spec fn grid_docs_wf(docs: Seq<Seq<EntryDoc>>) -> bool {
    forall|r: int, c: int|
        #![trigger docs[r][c]]
        0 <= r < docs.len() && 0 <= c < docs[r].len() ==> docs[r][c].doc.wf()
}

/// `i`, or the last of `n` where there are not as many.
pub open spec fn within(i: usize, n: int) -> usize {
    let last: int = if n < 1 {
        0
    } else {
        n - 1
    };
    if i < last {
        i
    } else {
        last as usize
    }
}

impl TableModel {
    /// A stored grid put back, the focus kept within it.
    pub open spec fn restored(self, docs: Seq<Seq<EntryDoc>>) -> TableModel {
        let cols: int = if docs.len() == 0 {
            1
        } else {
            docs[0].len() as int
        };
        TableModel {
            cells: restored_grid(docs, self.scale),
            focused: (
                within(self.focused.0, docs.len() as int),
                within(self.focused.1, cols),
            ),
            ..self
        }
    }
}

/// What has been put back is what was taken.
pub proof fn restoring_a_table_gives_back_its_snapshot(m: TableModel, docs: Seq<Seq<EntryDoc>>)
    ensures
        grid_docs(m.restored(docs).cells) == docs,
{
    assert forall|r: int| 0 <= r < docs.len() implies grid_docs(m.restored(docs).cells)[r]
        == docs[r] by {
        assert(row_docs(restored_row(docs[r], m.scale)) =~= docs[r]);
    }
    assert(grid_docs(m.restored(docs).cells) =~= docs);
}

/// One entry of a table.
pub struct TableEntry {
    pub textbox: TextBox,
    pub readonly: bool,
}

impl View for TableEntry {
    type V = EntryModel;

    open spec fn view(&self) -> EntryModel {
        EntryModel { text: self.textbox@, readonly: self.readonly }
    }
}

/// The mathematical content of a grid.
pub open spec fn grid_view(cells: Seq<Vec<TableEntry>>) -> Seq<Seq<EntryModel>> {
    Seq::new(cells.len(), |r: int| views(cells[r]@))
}

/// A table.
pub struct TableCell {
    cells: Vec<Vec<TableEntry>>,
    focused: (usize, usize),
    font_scale: u32,
}

impl View for TableCell {
    type V = TableModel;

    closed spec fn view(&self) -> TableModel {
        TableModel {
            cells: grid_view(self.cells@),
            focused: self.focused,
            scale: self.font_scale,
        }
    }
}

fn empty_entry() -> (e: TableEntry)
    ensures
        e@ == EntryModel::fresh(),
        e@.text.wf(),
{
    let text = String::new();
    assert(utf8(text@) =~= Seq::<u8>::empty());
    TableEntry { textbox: TextBox::new(text), readonly: false }
}

impl TableCell {
    /// A table of the default size.
    pub fn new() -> (t: TableCell)
        ensures
            t@ == TableModel::fresh(TABLE_DEFAULT_ROWS as int, TABLE_DEFAULT_COLS as int),
            t@.wf(),
    {
        TableCell::with_dimensions(TABLE_DEFAULT_ROWS, TABLE_DEFAULT_COLS)
    }

    /// A table of empty entries; one row and one column at least.
    pub fn with_dimensions(rows: usize, cols: usize) -> (t: TableCell)
        ensures
            t@ == TableModel::fresh(rows as int, cols as int),
            t@.wf(),
    {
        let height: usize = if rows < 1 {
            1
        } else {
            rows
        };
        let width: usize = if cols < 1 {
            1
        } else {
            cols
        };
        let mut cells: Vec<Vec<TableEntry>> = Vec::new();
        while cells.len() < height
            invariant
                cells.len() <= height,
                grid_view(cells@) == empty_grid(cells@.len() as int, width as int),
                grid_wf(grid_view(cells@)),
            decreases height - cells.len(),
        {
            let mut row: Vec<TableEntry> = Vec::new();
            while row.len() < width
                invariant
                    row.len() <= width,
                    forall|c: int|
                        0 <= c < row@.len() ==> (#[trigger] row@[c])@ == EntryModel::fresh()
                            && row@[c]@.text.wf(),
                decreases width - row.len(),
            {
                row.push(empty_entry());
            }
            let ghost held = cells@;
            let ghost one = views(row@);
            assert(one =~= Seq::new(width as nat, |c: int| EntryModel::fresh()));
            cells.push(row);
            proof {
                assert(grid_view(cells@) =~= grid_view(held).push(one));
                assert(grid_view(cells@) =~= empty_grid(cells@.len() as int, width as int));
                lemma_fresh_wf();
            }
        }
        assert(grid_view(cells@) =~= empty_grid(height as int, width as int));
        TableCell { cells, focused: (0, 0), font_scale: DEFAULT_SCALE }
    }

    pub fn rows(&self) -> (n: usize)
        ensures
            n == self@.cells.len(),
    {
        self.cells.len()
    }

    pub fn cols(&self) -> (n: usize)
        ensures
            n == self@.width(),
    {
        if self.cells.len() == 0 {
            0
        } else {
            assert(self@.cells[0] == views(self.cells@[0]@));
            self.cells[0].len()
        }
    }

    pub fn font_scale(&self) -> (s: u32)
        ensures
            s == self@.scale,
    {
        self.font_scale
    }

    fn has(&self, r: usize, c: usize) -> (h: bool)
        ensures
            h == self@.holds(r as int, c as int),
            h ==> r < self.cells.len() && c < self.cells@[r as int].len()
                && self@.cells[r as int][c as int] == self.cells@[r as int]@[c as int]@,
    {
        if r < self.cells.len() {
            assert(self@.cells[r as int] == views(self.cells@[r as int]@));
            if c < self.cells[r].len() {
                assert(self@.cells[r as int][c as int] == self.cells@[r as int]@[c as int]@);
                return true;
            }
        }
        false
    }

    /// The entry at `r`, `c`, where there is one.
    pub fn cell_at(&self, r: usize, c: usize) -> (e: Option<&TableEntry>)
        ensures
            match e {
                Some(e) => self@.holds(r as int, c as int) && (*e)@
                    == self@.cells[r as int][c as int],
                None => !self@.holds(r as int, c as int),
            },
    {
        if self.has(r, c) {
            Some(&self.cells[r][c])
        } else {
            None
        }
    }

    /// The entry at `r`, `c`, to be changed.
    pub fn cell_at_mut(&mut self, r: usize, c: usize) -> (e: Option<&mut TableEntry>)
        ensures
            match e {
                Some(e) => {
                    &&& old(self)@.holds(r as int, c as int)
                    &&& (*e)@ == old(self)@.cells[r as int][c as int]
                    &&& final(self)@ =~~= (TableModel {
                        cells: old(self)@.cells.update(
                            r as int,
                            old(self)@.cells[r as int].update(c as int, final(e)@),
                        ),
                        ..old(self)@
                    })
                },
                None => !old(self)@.holds(r as int, c as int) && final(self)@ == old(self)@,
            },
    {
        if self.has(r, c) {
            Some(&mut self.cells[r][c])
        } else {
            None
        }
    }

    /// The row and column that have the focus.
    pub fn focused_index(&self) -> (f: (usize, usize))
        ensures
            f == self@.focused,
    {
        self.focused
    }

    /// Whether no entry says anything.
    pub fn is_empty(&self) -> (e: bool)
        ensures
            e == (forall|r: int, c: int|
                #![trigger self@.cells[r][c]]
                self@.holds(r, c) ==> blank(self@.cells[r][c].text.doc.text)),
    {
        let ghost g = self@.cells;
        let mut r: usize = 0;
        while r < self.cells.len()
            invariant
                r <= self.cells.len(),
                g == grid_view(self.cells@),
                g == self@.cells,
                forall|i: int, c: int|
                    #![trigger g[i][c]]
                    0 <= i < r && 0 <= c < g[i].len() ==> blank(g[i][c].text.doc.text),
            decreases self.cells.len() - r,
        {
            assert(g[r as int] == views(self.cells@[r as int]@));
            let mut c: usize = 0;
            while c < self.cells[r].len()
                invariant
                    r < self.cells.len(),
                    c <= self.cells@[r as int].len(),
                    g == grid_view(self.cells@),
                    g == self@.cells,
                    g[r as int] == views(self.cells@[r as int]@),
                    forall|k: int|
                        0 <= k < c ==> blank((#[trigger] g[r as int][k]).text.doc.text),
                decreases self.cells@[r as int].len() - c,
            {
                assert(g[r as int][c as int] == self.cells@[r as int]@[c as int]@);
                if !self.cells[r][c].textbox.is_empty() {
                    assert(self@.holds(r as int, c as int));
                    return false;
                }
                c += 1;
            }
            r += 1;
        }
        true
    }

    /// Does `op` to every entry. Returns whether it had something to tell of one.
    pub fn run_on_all(&mut self, op: &TextOp) -> (any: bool)
        requires
            old(self)@.wf(),
        ensures
            final(self)@ == (TableModel {
                cells: grid_mapped(old(self)@.cells, op.on()),
                ..old(self)@
            }),
            any == (exists|r: int, c: int|
                #![trigger old(self)@.cells[r][c]]
                old(self)@.holds(r, c) && op.tells(old(self)@.cells[r][c].text)),
            final(self)@.wf(),
    {
        let ghost before = self@;
        let ghost g = before.cells;
        let ghost f = op.on();
        let mut any: bool = false;
        let mut r: usize = 0;
        while r < self.cells.len()
            invariant
                r <= self.cells.len(),
                self.cells@.len() == g.len(),
                g == before.cells,
                before.wf(),
                f == op.on(),
                self.focused == before.focused,
                self.font_scale == before.scale,
                any == (exists|i: int, c: int|
                    #![trigger g[i][c]]
                    0 <= i < r && 0 <= c < g[i].len() && op.tells(g[i][c].text)),
                forall|i: int|
                    0 <= i < r ==> #[trigger] views(self.cells@[i]@) == row_mapped(g[i], f),
                forall|i: int, c: int|
                    #![trigger self.cells@[i]@[c]]
                    0 <= i < r && 0 <= c < g[i].len() ==> self.cells@[i]@[c]@.text.wf(),
                forall|i: int| r <= i < g.len() ==> #[trigger] views(self.cells@[i]@) == g[i],
            decreases self.cells.len() - r,
        {
            assert(views(self.cells@[r as int]@) == g[r as int]);
            let ghost row = g[r as int];
            let ghost told = any;
            let ghost was = self.cells@;
            let mut c: usize = 0;
            while c < self.cells[r].len()
                invariant
                    r < self.cells.len(),
                    c <= self.cells@[r as int].len(),
                    self.cells@.len() == g.len(),
                    was.len() == g.len(),
                    row == g[r as int],
                    g == before.cells,
                    before.wf(),
                    f == op.on(),
                    self.focused == before.focused,
                    self.font_scale == before.scale,
                    self.cells@[r as int]@.len() == row.len(),
                    any == (told || exists|k: int|
                        0 <= k < c && op.tells((#[trigger] row[k]).text)),
                    forall|k: int|
                        0 <= k < c ==> (#[trigger] self.cells@[r as int]@[k])@ == row[k].saying(
                            f(row[k].text),
                        ) && self.cells@[r as int]@[k]@.text.wf(),
                    forall|k: int|
                        c <= k < row.len() ==> (#[trigger] self.cells@[r as int]@[k])@ == row[k],
                    forall|i: int| 0 <= i < g.len() && i != r ==> self.cells@[i] == was[i],
                decreases self.cells@[r as int].len() - c,
            {
                assert(self.cells@[r as int]@[c as int]@ == row[c as int]);
                assert(g[r as int][c as int].text.wf());
                if op.run(&mut self.cells[r][c].textbox) {
                    any = true;
                    assert(op.tells(row[c as int].text));
                }
                c += 1;
            }
            proof {
                assert(views(self.cells@[r as int]@) =~= row_mapped(row, f));
                assert forall|i: int| 0 <= i < r implies #[trigger] views(self.cells@[i]@)
                    == row_mapped(g[i], f) by {
                    assert(views(was[i]@) == row_mapped(g[i], f));
                }
                assert forall|i: int| r < i < g.len() implies #[trigger] views(self.cells@[i]@)
                    == g[i] by {
                    assert(views(was[i]@) == g[i]);
                }
                assert forall|i: int, c: int|
                    #![trigger self.cells@[i]@[c]]
                    0 <= i < r + 1 && 0 <= c < g[i].len() implies self.cells@[i]@[c]@.text.wf() by {
                    if i < r {
                        assert(was[i]@[c]@.text.wf());
                    }
                }
                if exists|k: int| 0 <= k < row.len() && op.tells((#[trigger] row[k]).text) {
                    let k = choose|k: int|
                        0 <= k < row.len() && op.tells((#[trigger] row[k]).text);
                    assert(op.tells(g[r as int][k].text));
                }
            }
            r += 1;
        }
        proof {
            assert(self@.cells =~= grid_mapped(g, f)) by {
                assert forall|i: int| 0 <= i < g.len() implies self@.cells[i] == grid_mapped(
                    g,
                    f,
                )[i] by {
                    assert(views(self.cells@[i]@) == row_mapped(g[i], f));
                }
            }
            assert(grid_wf(self@.cells)) by {
                assert forall|i: int, c: int|
                    #![trigger self@.cells[i][c]]
                    0 <= i < self@.cells.len() && 0 <= c < self@.cells[i].len() implies
                        self@.cells[i][c].text.wf() by {
                    assert(self.cells@[i]@[c]@.text.wf());
                    assert(views(self.cells@[i]@)[c] == self.cells@[i]@[c]@);
                }
            }
        }
        any
    }

    /// Sets the zoom factor of the table and of every entry.
    pub fn set_font_scale(&mut self, scale: u32)
        requires
            old(self)@.wf(),
        ensures
            final(self)@ == (TableModel {
                cells: grid_mapped(old(self)@.cells, TextOp::Zoom(scale).on()),
                scale,
                ..old(self)@
            }),
            final(self)@.wf(),
    {
        let _ = self.run_on_all(&TextOp::Zoom(scale));
        self.font_scale = scale;
    }

    /// Puts the caret of the entry at `r`, `c` at `at`.
    fn put_caret(&mut self, r: usize, c: usize, at: usize)
        requires
            old(self)@.wf(),
            old(self)@.holds(r as int, c as int),
        ensures
            final(self)@ == old(self)@.saying(
                r as int,
                c as int,
                caret_put(old(self)@.cells[r as int][c as int].text, at as int),
            ),
            final(self)@.wf(),
    {
        let ghost before = self@;
        if let Some(e) = self.cell_at_mut(r, c) {
            e.textbox.set_caret_at(at);
        }
        proof {
            let t = before.cells[r as int][c as int].text;
            assert(self@ =~~= before.saying(r as int, c as int, caret_put(t, at as int)));
            lemma_saying_wf(before, r as int, c as int, caret_put(t, at as int));
        }
    }

    /// Moves the focus to the entry at `r`, `c`.
    fn focus_cell(&mut self, r: usize, c: usize)
        requires
            old(self)@.wf(),
        ensures
            final(self)@ == old(self)@.focusing(r, c),
            final(self)@.wf(),
    {
        if r == self.focused.0 && c == self.focused.1 {
            return ;
        }
        let (pr, pc) = self.focused;
        if self.has(pr, pc) {
            if let Some((_, head)) = self.cells[pr][pc].textbox.primary_caret() {
                self.put_caret(pr, pc, head);
            }
        }
        self.focused = (r, c);
        let ghost there = self@;
        assert(grid_wf(there.cells));
        if self.has(r, c) {
            let end: usize = text::len(self.cells[r][c].textbox.text());
            self.put_caret(r, c, end);
        }
        assert(self@ == old(self)@.focusing(r, c));
    }

    /// Moves the focus one entry on, or back, row by row. Returns whether it moved.
    pub fn step_focus(&mut self, forward: bool) -> (moved: bool)
        requires
            old(self)@.wf(),
            old(self)@.width() > 0,
            old(self)@.focused.0 < usize::MAX,
            old(self)@.focused.1 < usize::MAX,
        ensures
            final(self)@ == old(self)@.stepped(forward),
            moved == (old(self)@.next_entry(forward) is Some),
            final(self)@.wf(),
    {
        let rows: usize = self.rows();
        let cols: usize = self.cols();
        let (r, c) = self.focused;
        let (nr, nc) = if forward {
            if c + 1 < cols {
                (r, c + 1)
            } else if r + 1 < rows {
                (r + 1, 0)
            } else {
                return false;
            }
        } else if c > 0 {
            (r, c - 1)
        } else if r > 0 {
            (r - 1, cols - 1)
        } else {
            return false;
        };
        self.focus_cell(nr, nc);
        true
    }

    /// Where an arrow at the edge of the focused text takes the focus.
    fn crossing_to(&self, key: Key) -> (to: Option<(usize, usize)>)
        requires
            self@.wf(),
            self@.focused.0 < usize::MAX,
            self@.focused.1 < usize::MAX,
        ensures
            match to {
                Some((r, c)) => self@.crossing(key) == Some((r as int, c as int)),
                None => self@.crossing(key) is None,
            },
    {
        let rows: usize = self.rows();
        let cols: usize = self.cols();
        let (r, c) = self.focused;
        let there: bool = self.has(r, c);
        proof {
            if there {
                assert(self@.cells[r as int][c as int].text.wf());
            }
        }
        match key {
            Key::ArrowUp => {
                if (!there || self.cells[r][c].textbox.at_top_visual_line()) && r > 0 {
                    Some((r - 1, c))
                } else {
                    None
                }
            },
            Key::ArrowDown => {
                if (!there || self.cells[r][c].textbox.at_bottom_visual_line()) && r + 1 < rows {
                    Some((r + 1, c))
                } else {
                    None
                }
            },
            Key::ArrowLeft => {
                let at_start: bool = !there || match self.cells[r][c].textbox.primary_caret() {
                    Some((_, h)) => h == 0,
                    None => true,
                };
                if at_start && c > 0 {
                    Some((r, c - 1))
                } else {
                    None
                }
            },
            Key::ArrowRight => {
                let at_end: bool = !there || {
                    let head: usize = match self.cells[r][c].textbox.primary_caret() {
                        Some((_, h)) => h,
                        None => 0,
                    };
                    head == text::len(self.cells[r][c].textbox.text())
                };
                if at_end && c + 1 < cols {
                    Some((r, c + 1))
                } else {
                    None
                }
            },
            _ => None,
        }
    }

    /// Handles a key: Tab moves the focus, so do arrows at the edge of the focused
    /// text; any other goes to that text, unless it would edit an entry that can
    /// only be read. Returns whether the key was taken.
    pub fn handle_key(&mut self, event: &KeyEvent, mods: Modifiers, now: u64) -> (r: bool)
        requires
            old(self)@.wf(),
            old(self)@.width() > 0,
            old(self)@.focused.0 < usize::MAX,
            old(self)@.focused.1 < usize::MAX,
            old(self)@.after_key(*event, mods, now).fits,
        ensures
            final(self)@ == old(self)@.after_key(*event, mods, now).m,
            r == old(self)@.after_key(*event, mods, now).done,
            final(self)@.wf(),
    {
        let ghost before = self@;
        if !event.pressed {
            return false;
        }
        if matches!(event.key, Key::Tab) {
            let _ = self.step_focus(!mods.shift);
            return true;
        }
        if !mods.shift {
            if let Some((r, c)) = self.crossing_to(event.key) {
                self.focus_cell(r, c);
                return true;
            }
        }
        let (r, c) = self.focused;
        if !self.has(r, c) {
            return false;
        }
        let typing: bool = matches!(
            event.key,
            Key::Backspace | Key::Delete | Key::Enter | Key::Modifier | Key::Other
        );
        if self.cells[r][c].readonly && typing {
            return false;
        }
        let ghost t = before.cells[r as int][c as int].text;
        assert(t.wf());
        let mut taken: bool = false;
        if let Some(e) = self.cell_at_mut(r, c) {
            taken = e.textbox.handle_key(event, mods, now);
        }
        proof {
            let after = after_key(t, *event, mods, now).0;
            assert(self@ =~~= before.saying(r as int, c as int, after));
            lemma_saying_wf(before, r as int, c as int, after);
        }
        taken
    }

    /// Handles a press of the mouse button on the entry at `r`, `c`.
    pub fn mouse_down(
        &mut self,
        r: usize,
        c: usize,
        click: Click,
        mods: Modifiers,
        editing: bool,
    ) -> (taken: bool)
        requires
            old(self)@.wf(),
            old(self)@.holds(r as int, c as int),
            boundary(old(self)@.cells[r as int][c as int].text.doc.text, click.idx as int),
        ensures
            taken,
            final(self)@ == old(self)@.pressed(r, c, click, mods, editing),
            final(self)@.wf(),
    {
        let ghost before = self@;
        self.focus_cell(r, c);
        let ghost m = self@;
        proof {
            lemma_focusing_texts(before, r, c, r as int, c as int);
            assert(m.cells[r as int][c as int].text.wf());
        }
        if let Some(e) = self.cell_at_mut(r, c) {
            let allow: bool = editing && !e.readonly;
            let _ = e.textbox.mouse_down(click, mods, allow);
        }
        proof {
            let e = m.cells[r as int][c as int];
            let after = after_mouse_down(e.text, click, mods, editing && !e.readonly);
            assert(self@ =~~= m.saying(r as int, c as int, after));
            lemma_saying_wf(m, r as int, c as int, after);
        }
        true
    }

    /// The entry that a pointer belongs to, by the rows and columns as last drawn:
    /// `above(r, r)` tells whether it is above the bottom of row `r`,
    /// `before(c, c)` whether it is in front of the end of column `c`.
    pub fn hit_test<F: Fn(usize, usize) -> bool, G: Fn(usize, usize) -> bool>(
        &self,
        above: &F,
        before: &G,
    ) -> (hit: Option<(usize, usize)>)
        requires
            decided(*above),
            decided(*before),
        ensures
            match hit {
                Some((r, c)) => {
                    &&& self@.cells.len() > 0
                    &&& self@.width() > 0
                    &&& r == band_from(
                        self@.cells.len() as int,
                        0,
                        |k: int| measure(*above)(k, k),
                    )
                    &&& c == band_from(self@.width(), 0, |k: int| measure(*before)(k, k))
                    &&& r < self@.cells.len()
                    &&& c < self@.width()
                },
                None => self@.cells.len() == 0 || self@.width() == 0,
            },
    {
        let rows: usize = self.rows();
        let cols: usize = self.cols();
        if rows == 0 || cols == 0 {
            return None;
        }
        Some((TextBox::find_line_at_y(rows, above), TextBox::find_line_at_y(cols, before)))
    }

    /// The entry that a drag is in progress in.
    pub fn drag_source(&self) -> (at: Option<(usize, usize)>)
        ensures
            match at {
                Some((r, c)) => grid_first(self@.cells, |t: TextModel| t.drag is Some, 0) == Some(
                    (r as int, c as int),
                ),
                None => grid_first(self@.cells, |t: TextModel| t.drag is Some, 0) is None,
            },
    {
        let ghost p = |t: TextModel| t.drag is Some;
        let ghost g = self@.cells;
        let mut r: usize = 0;
        while r < self.cells.len()
            invariant
                r <= self.cells.len(),
                g == grid_view(self.cells@),
                g == self@.cells,
                p == (|t: TextModel| t.drag is Some),
                grid_first(g, p, 0) == grid_first(g, p, r as int),
            decreases self.cells.len() - r,
        {
            assert(g[r as int] == views(self.cells@[r as int]@));
            let mut c: usize = 0;
            while c < self.cells[r].len()
                invariant
                    r < self.cells.len(),
                    c <= self.cells@[r as int].len(),
                    g == grid_view(self.cells@),
                    g == self@.cells,
                    g[r as int] == views(self.cells@[r as int]@),
                    p == (|t: TextModel| t.drag is Some),
                    grid_first(g, p, 0) == grid_first(g, p, r as int),
                    row_first(g[r as int], p, 0) == row_first(g[r as int], p, c as int),
                decreases self.cells@[r as int].len() - c,
            {
                assert(g[r as int][c as int] == self.cells@[r as int]@[c as int]@);
                if self.cells[r][c].textbox.is_dragging() {
                    return Some((r, c));
                }
                c += 1;
            }
            r += 1;
        }
        None
    }

    /// Follows a drag to byte `at` of the entry that it started in. Returns whether
    /// anything changed.
    pub fn mouse_drag_to(&mut self, r: usize, c: usize, at: usize, affinity: Affinity) -> (changed:
        bool)
        requires
            old(self)@.wf(),
            old(self)@.holds(r as int, c as int),
            drag_fits(old(self)@.cells[r as int][c as int].text),
            boundary(old(self)@.cells[r as int][c as int].text.doc.text, at as int),
        ensures
            ({
                let t = old(self)@.cells[r as int][c as int].text;
                let after = after_drag(t, at, affinity);
                final(self)@ == old(self)@.saying(r as int, c as int, after) && changed == (after
                    != t)
            }),
            final(self)@.wf(),
    {
        let ghost before = self@;
        let ghost t = before.cells[r as int][c as int].text;
        assert(t.wf());
        let mut changed: bool = false;
        if let Some(e) = self.cell_at_mut(r, c) {
            changed = e.textbox.mouse_drag_to(at, affinity);
        }
        proof {
            let after = after_drag(t, at, affinity);
            assert(self@ =~~= before.saying(r as int, c as int, after));
            lemma_saying_wf(before, r as int, c as int, after);
        }
        changed
    }

    /// Ends a drag. Returns whether there was one.
    pub fn mouse_up(&mut self) -> (any: bool)
        requires
            old(self)@.wf(),
        ensures
            final(self)@ == (TableModel {
                cells: grid_mapped(old(self)@.cells, TextOp::Release.on()),
                ..old(self)@
            }),
            any == (exists|r: int, c: int|
                #![trigger old(self)@.cells[r][c]]
                old(self)@.holds(r, c) && old(self)@.cells[r][c].text.drag is Some),
            final(self)@.wf(),
    {
        let ghost g = self@.cells;
        let any: bool = self.run_on_all(&TextOp::Release);
        proof {
            if any {
                let (r, c) = choose|r: int, c: int|
                    #![trigger g[r][c]]
                    old(self)@.holds(r, c) && TextOp::Release.tells(g[r][c].text);
                assert(g[r][c].text.drag is Some);
            }
            assert forall|r: int, c: int|
                #![trigger g[r][c]]
                old(self)@.holds(r, c) && g[r][c].text.drag is Some implies any by {
                assert(TextOp::Release.tells(g[r][c].text));
            }
        }
        any
    }

    /// What is selected in the first entry that has anything selected.
    pub fn copy_selection(&self) -> (s: String)
        requires
            self@.wf(),
        ensures
            utf8(s@) == self@.copied(),
    {
        let ghost p = |t: TextModel| t.primary_text().len() > 0;
        let ghost g = self@.cells;
        let mut r: usize = 0;
        while r < self.cells.len()
            invariant
                r <= self.cells.len(),
                g == grid_view(self.cells@),
                g == self@.cells,
                grid_wf(g),
                p == (|t: TextModel| t.primary_text().len() > 0),
                grid_first(g, p, 0) == grid_first(g, p, r as int),
            decreases self.cells.len() - r,
        {
            assert(g[r as int] == views(self.cells@[r as int]@));
            let mut c: usize = 0;
            while c < self.cells[r].len()
                invariant
                    r < self.cells.len(),
                    c <= self.cells@[r as int].len(),
                    g == grid_view(self.cells@),
                    g == self@.cells,
                    grid_wf(g),
                    g[r as int] == views(self.cells@[r as int]@),
                    p == (|t: TextModel| t.primary_text().len() > 0),
                    grid_first(g, p, 0) == grid_first(g, p, r as int),
                    row_first(g[r as int], p, 0) == row_first(g[r as int], p, c as int),
                decreases self.cells@[r as int].len() - c,
            {
                assert(g[r as int][c as int] == self.cells@[r as int]@[c as int]@);
                assert(g[r as int][c as int].text.wf());
                let s = self.cells[r][c].textbox.copy_primary_selection();
                if text::len(s.as_str()) > 0 {
                    return s;
                }
                c += 1;
            }
            r += 1;
        }
        let none = String::new();
        assert(utf8(none@) =~= Seq::<u8>::empty());
        none
    }

    /// Cuts what is selected in the focused entry; from one that can only be read
    /// it is copied.
    pub fn cut_focused(&mut self, now: u64) -> (s: String)
        requires
            old(self)@.wf(),
            old(self)@.editable() ==> old(self)@.focused_text().doc.room(0),
        ensures
            utf8(s@) == old(self)@.focused_selection(),
            final(self)@ == old(self)@.focused_edited(|t: TextModel| t.cut(now)),
            final(self)@.wf(),
    {
        let ghost before = self@;
        let (r, c) = self.focused;
        if !self.has(r, c) {
            let none = String::new();
            assert(utf8(none@) =~= Seq::<u8>::empty());
            return none;
        }
        let ghost t = before.cells[r as int][c as int].text;
        assert(t.wf());
        if self.cells[r][c].readonly {
            return self.cells[r][c].textbox.copy_primary_selection();
        }
        let mut s = String::new();
        if let Some(e) = self.cell_at_mut(r, c) {
            s = e.textbox.cut_primary_selection(now);
        }
        proof {
            assert(self@ =~~= before.saying(r as int, c as int, t.cut(now)));
            lemma_saying_wf(before, r as int, c as int, t.cut(now));
        }
        s
    }

    /// Pastes into the focused entry, with links, unless it can only be read.
    pub fn paste_focused_with_links(&mut self, s: &str, links: &Vec<LinkSpan>, now: u64)
        requires
            old(self)@.wf(),
            old(self)@.editable() ==> old(self)@.focused_text().can_apply(
                old(self)@.focused_text().edits(replacing(utf8(s@))),
            ),
        ensures
            final(self)@ == old(self)@.focused_edited(
                |t: TextModel| t.pasted(utf8(s@), pasted_links(s@, links@), now),
            ),
            final(self)@.wf(),
    {
        let ghost before = self@;
        let (r, c) = self.focused;
        if !self.has(r, c) || self.cells[r][c].readonly {
            return ;
        }
        let ghost t = before.cells[r as int][c as int].text;
        assert(t.wf());
        if let Some(e) = self.cell_at_mut(r, c) {
            e.textbox.paste_with_links(s, links, now);
        }
        proof {
            let after = t.pasted(utf8(s@), pasted_links(s@, links@), now);
            assert(self@ =~~= before.saying(r as int, c as int, after));
            lemma_saying_wf(before, r as int, c as int, after);
        }
    }

    /// Pastes into the focused entry, unless it can only be read; the addresses in
    /// the text become links.
    pub fn paste_focused(&mut self, s: &str, now: u64)
        requires
            old(self)@.wf(),
            old(self)@.editable() ==> old(self)@.focused_text().can_apply(
                old(self)@.focused_text().edits(replacing(utf8(s@))),
            ),
        ensures
            final(self)@ == old(self)@.focused_edited(
                |t: TextModel| t.pasted(utf8(s@), url_links(utf8(s@)), now),
            ),
            final(self)@.wf(),
    {
        let none: Vec<LinkSpan> = Vec::new();
        self.paste_focused_with_links(s, &none, now);
        proof {
            let f = |t: TextModel| t.pasted(utf8(s@), pasted_links(s@, none@), now);
            let g = |t: TextModel| t.pasted(utf8(s@), url_links(utf8(s@)), now);
            assert(f =~= g);
        }
    }

    /// The whole table as text: tabs between entries, line feeds between rows.
    pub fn full_text(&self) -> (s: String)
        ensures
            utf8(s@) == grid_joined(self@.cells, self@.cells.len() as int),
    {
        let ghost g = self@.cells;
        proof {
            reveal_strlit("\n");
            is_ascii_chars_encode_utf8("\n"@);
            assert(utf8("\n"@) =~= seq![10u8]);
            reveal_strlit("\t");
            is_ascii_chars_encode_utf8("\t"@);
            assert(utf8("\t"@) =~= seq![9u8]);
        }
        let mut s = String::new();
        assert(utf8(s@) =~= Seq::<u8>::empty());
        let mut r: usize = 0;
        while r < self.cells.len()
            invariant
                r <= self.cells.len(),
                g == grid_view(self.cells@),
                utf8("\n"@) == seq![10u8],
                utf8("\t"@) == seq![9u8],
                utf8(s@) == grid_joined(g, r as int),
            decreases self.cells.len() - r,
        {
            assert(g[r as int] == views(self.cells@[r as int]@));
            let ghost row = g[r as int];
            if r > 0 {
                text::push_str(&mut s, "\n");
            }
            let ghost led = utf8(s@);
            let mut c: usize = 0;
            assert(led + row_joined(row, 0) =~= led);
            while c < self.cells[r].len()
                invariant
                    r < self.cells.len(),
                    c <= self.cells@[r as int].len(),
                    row == views(self.cells@[r as int]@),
                    utf8("\t"@) == seq![9u8],
                    utf8(s@) == led + row_joined(row, c as int),
                decreases self.cells@[r as int].len() - c,
            {
                assert(row[c as int] == self.cells@[r as int]@[c as int]@);
                if c > 0 {
                    text::push_str(&mut s, "\t");
                }
                text::push_str(&mut s, self.cells[r][c].textbox.text());
                c += 1;
                assert(utf8(s@) =~= led + row_joined(row, c as int));
            }
            r += 1;
            assert(utf8(s@) =~= grid_joined(g, r as int));
        }
        s
    }

    /// The grid.
    pub fn rows_view(&self) -> (g: &[Vec<TableEntry>])
        ensures
            grid_view(g@) == self@.cells,
    {
        self.cells.as_slice()
    }

    /// A copy of what undo restores.
    pub fn snapshot(&self) -> (s: TableSnapshot)
        ensures
            s@ == grid_docs(self@.cells),
    {
        let ghost g = self@.cells;
        let mut cells: Vec<Vec<TableEntrySnapshot>> = Vec::new();
        let mut r: usize = 0;
        while r < self.cells.len()
            invariant
                r <= self.cells.len(),
                g == grid_view(self.cells@),
                cells@.len() == r,
                forall|i: int| 0 <= i < r ==> #[trigger] views(cells@[i]@) == row_docs(g[i]),
            decreases self.cells.len() - r,
        {
            assert(g[r as int] == views(self.cells@[r as int]@));
            let ghost row = g[r as int];
            let mut out: Vec<TableEntrySnapshot> = Vec::new();
            let mut c: usize = 0;
            while c < self.cells[r].len()
                invariant
                    r < self.cells.len(),
                    c <= self.cells@[r as int].len(),
                    row == views(self.cells@[r as int]@),
                    out@.len() == c,
                    forall|k: int| 0 <= k < c ==> (#[trigger] out@[k])@ == row_docs(row)[k],
                decreases self.cells@[r as int].len() - c,
            {
                assert(row[c as int] == self.cells@[r as int]@[c as int]@);
                let e = &self.cells[r][c];
                out.push(
                    TableEntrySnapshot { textbox: e.textbox.snapshot(), readonly: e.readonly },
                );
                c += 1;
            }
            assert(views(out@) =~= row_docs(row));
            let ghost held = cells@;
            cells.push(out);
            assert forall|i: int| 0 <= i < r + 1 implies #[trigger] views(cells@[i]@) == row_docs(
                g[i],
            ) by {
                if i < r {
                    assert(views(held[i]@) == row_docs(g[i]));
                }
            }
            r += 1;
        }
        let s = TableSnapshot { cells };
        assert(s@ =~= grid_docs(g));
        s
    }

    /// Puts a snapshot back; the focus is kept within it.
    pub fn restore(&mut self, snap: TableSnapshot)
        requires
            grid_docs_wf(snap@),
        ensures
            final(self)@ == old(self)@.restored(snap@),
            final(self)@.wf(),
    {
        let ghost before = self@;
        let ghost docs = snap@;
        let scale: u32 = self.font_scale;
        let mut cells: Vec<Vec<TableEntry>> = Vec::new();
        let mut r: usize = 0;
        while r < snap.cells.len()
            invariant
                r <= snap.cells.len(),
                docs == snap@,
                grid_docs_wf(docs),
                cells@.len() == r,
                forall|i: int|
                    0 <= i < r ==> #[trigger] views(cells@[i]@) == restored_row(docs[i], scale),
                forall|i: int, c: int|
                    #![trigger cells@[i]@[c]]
                    0 <= i < r && 0 <= c < cells@[i]@.len() ==> cells@[i]@[c]@.text.wf(),
            decreases snap.cells.len() - r,
        {
            assert(docs[r as int] == views(snap.cells@[r as int]@));
            let ghost row = docs[r as int];
            let mut out: Vec<TableEntry> = Vec::new();
            let mut c: usize = 0;
            while c < snap.cells[r].len()
                invariant
                    r < snap.cells.len(),
                    c <= snap.cells@[r as int].len(),
                    docs == snap@,
                    grid_docs_wf(docs),
                    row == docs[r as int],
                    row == views(snap.cells@[r as int]@),
                    out@.len() == c,
                    forall|k: int|
                        0 <= k < c ==> (#[trigger] out@[k])@ == restored_row(row, scale)[k]
                            && out@[k]@.text.wf(),
                decreases snap.cells@[r as int].len() - c,
            {
                assert(row[c as int] == snap.cells@[r as int]@[c as int]@);
                assert(docs[r as int][c as int].doc.wf());
                let e = &snap.cells[r][c];
                let empty = String::new();
                assert(utf8(empty@) =~= Seq::<u8>::empty());
                let mut tb = TextBox::new(empty);
                tb.set_font_scale(scale);
                tb.restore(e.textbox.duplicate());
                out.push(TableEntry { textbox: tb, readonly: e.readonly });
                c += 1;
            }
            assert(views(out@) =~= restored_row(row, scale));
            let ghost held = cells@;
            let ghost last = out@;
            cells.push(out);
            proof {
                assert forall|i: int| 0 <= i < r + 1 implies #[trigger] views(cells@[i]@)
                    == restored_row(docs[i], scale) by {
                    if i < r {
                        assert(views(held[i]@) == restored_row(docs[i], scale));
                    }
                }
                assert forall|i: int, c: int|
                    #![trigger cells@[i]@[c]]
                    0 <= i < r + 1 && 0 <= c < cells@[i]@.len() implies
                        cells@[i]@[c]@.text.wf() by {
                    if i < r {
                        assert(held[i]@[c]@.text.wf());
                    } else {
                        assert(last[c]@.text.wf());
                    }
                }
            }
            r += 1;
        }
        let rows: usize = snap.cells.len();
        let cols: usize = if rows == 0 {
            1
        } else {
            assert(docs[0] == views(snap.cells@[0]@));
            snap.cells[0].len()
        };
        let (fr, fc) = self.focused;
        self.focused = (clamp_to(fr, rows), clamp_to(fc, cols));
        self.cells = cells;
        proof {
            assert(self@.cells =~= restored_grid(docs, scale)) by {
                assert forall|i: int| 0 <= i < docs.len() implies self@.cells[i] == restored_grid(
                    docs,
                    scale,
                )[i] by {
                    assert(views(cells@[i]@) == restored_row(docs[i], scale));
                }
            }
            assert(self@ =~= before.restored(docs));
            assert(grid_wf(self@.cells)) by {
                assert forall|i: int, c: int|
                    #![trigger self@.cells[i][c]]
                    0 <= i < self@.cells.len() && 0 <= c < self@.cells[i].len() implies
                        self@.cells[i][c].text.wf() by {
                    assert(cells@[i]@[c]@.text.wf());
                    assert(views(cells@[i]@)[c] == cells@[i]@[c]@);
                }
            }
        }
    }

    /// A table of entries that are there already. Rows shorter than the first are
    /// filled up with empty entries.
    pub fn from_entries(rows: Vec<Vec<TableEntry>>) -> (t: TableCell)
        requires
            grid_wf(grid_view(rows@)),
        ensures
            t@ == table_of_entries(grid_view(rows@)),
            t@.wf(),
    {
        let ghost given = grid_view(rows@);
        let cols: usize = if rows.len() > 0 && rows[0].len() > 0 {
            assert(given[0] == views(rows@[0]@));
            rows[0].len()
        } else {
            1
        };
        proof {
            if rows@.len() > 0 {
                assert(given[0] == views(rows@[0]@));
            }
        }
        let mut cells = rows;
        let mut r: usize = 0;
        while r < cells.len()
            invariant
                r <= cells.len(),
                cells@.len() == given.len(),
                grid_wf(given),
                forall|i: int|
                    0 <= i < r ==> #[trigger] views(cells@[i]@) == filled_row(
                        given[i],
                        cols as int,
                    ),
                forall|i: int| r <= i < given.len() ==> #[trigger] views(cells@[i]@) == given[i],
            decreases cells.len() - r,
        {
            let ghost held = cells@;
            assert(views(cells@[r as int]@) == given[r as int]);
            while cells[r].len() < cols
                invariant
                    r < cells@.len(),
                    cells@.len() == held.len(),
                    forall|i: int| 0 <= i < held.len() && i != r ==> cells@[i] == held[i],
                    cells@[r as int]@.len() >= given[r as int].len(),
                    cells@[r as int]@.len() <= cols || cells@[r as int]@.len()
                        == given[r as int].len(),
                    forall|k: int|
                        0 <= k < cells@[r as int]@.len() ==> (#[trigger] cells@[r as int]@[k])@
                            == (if k < given[r as int].len() {
                            given[r as int][k]
                        } else {
                            EntryModel::fresh()
                        }),
                decreases cols - cells@[r as int]@.len(),
            {
                cells[r].push(empty_entry());
            }
            assert(views(cells@[r as int]@) =~= filled_row(given[r as int], cols as int));
            proof {
                assert forall|i: int| r < i < given.len() implies #[trigger] views(cells@[i]@)
                    == given[i] by {
                    assert(views(held[i]@) == given[i]);
                }
                assert forall|i: int| 0 <= i < r implies #[trigger] views(cells@[i]@)
                    == filled_row(given[i], cols as int) by {
                    assert(views(held[i]@) == filled_row(given[i], cols as int));
                }
            }
            r += 1;
        }
        let t = TableCell { cells, focused: (0, 0), font_scale: DEFAULT_SCALE };
        proof {
            assert(t@.cells =~= table_of_entries(given).cells) by {
                assert forall|i: int| 0 <= i < given.len() implies t@.cells[i]
                    == filled_row(given[i], cols as int) by {
                    assert(views(cells@[i]@) == filled_row(given[i], cols as int));
                }
            }
            lemma_fresh_wf();
        }
        t
    }

    /// A table made of stored entries: text, links and whether it can only be
    /// read. Rows shorter than the first are filled up with empty entries.
    pub fn from_records(rows: Vec<Vec<(String, Vec<(Range<usize>, String)>, bool)>>) -> (t:
        TableCell)
        ensures
            t@ == table_of_records(records_view(rows@)),
            t@.wf(),
    {
        let ghost recs = records_view(rows@);
        let cols: usize = if rows.len() > 0 && rows[0].len() > 0 {
            assert(recs[0] == record_row_view(rows@[0]@));
            rows[0].len()
        } else {
            1
        };
        proof {
            if rows@.len() > 0 {
                assert(recs[0] == record_row_view(rows@[0]@));
            }
        }
        let mut cells: Vec<Vec<TableEntry>> = Vec::new();
        let mut r: usize = 0;
        while r < rows.len()
            invariant
                r <= rows.len(),
                recs == records_view(rows@),
                cells@.len() == r,
                forall|i: int|
                    0 <= i < r ==> #[trigger] views(cells@[i]@) == row_of_records(
                        recs[i],
                        cols as int,
                    ),
                forall|i: int, c: int|
                    #![trigger cells@[i]@[c]]
                    0 <= i < r && 0 <= c < cells@[i]@.len() ==> cells@[i]@[c]@.text.wf(),
            decreases rows.len() - r,
        {
            assert(recs[r as int] == record_row_view(rows@[r as int]@));
            let out = row_from_records(&rows[r], cols);
            let ghost held = cells@;
            let ghost last = out@;
            cells.push(out);
            proof {
                assert forall|i: int| 0 <= i < r + 1 implies #[trigger] views(cells@[i]@)
                    == row_of_records(recs[i], cols as int) by {
                    if i < r {
                        assert(views(held[i]@) == row_of_records(recs[i], cols as int));
                    }
                }
                assert forall|i: int, c: int|
                    #![trigger cells@[i]@[c]]
                    0 <= i < r + 1 && 0 <= c < cells@[i]@.len() implies
                        cells@[i]@[c]@.text.wf() by {
                    if i < r {
                        assert(held[i]@[c]@.text.wf());
                    } else {
                        assert(last[c]@.text.wf());
                    }
                }
            }
            r += 1;
        }
        let t = TableCell { cells, focused: (0, 0), font_scale: DEFAULT_SCALE };
        proof {
            assert(t@.cells =~= table_of_records(recs).cells) by {
                assert forall|i: int| 0 <= i < recs.len() implies t@.cells[i]
                    == table_of_records(recs).cells[i] by {
                    assert(views(cells@[i]@) == row_of_records(recs[i], cols as int));
                }
            }
            assert(grid_wf(t@.cells)) by {
                assert forall|i: int, c: int|
                    #![trigger t@.cells[i][c]]
                    0 <= i < t@.cells.len() && 0 <= c < t@.cells[i].len() implies
                        t@.cells[i][c].text.wf() by {
                    assert(cells@[i]@[c]@.text.wf());
                    assert(views(cells@[i]@)[c] == cells@[i]@[c]@);
                }
            }
        }
        t
    }

    /// The address that the last press of the mouse button marked in an entry,
    /// handed out once.
    pub fn take_pending_link_url(&mut self) -> (url: Option<String>)
        requires
            old(self)@.wf(),
        ensures
            match grid_first(old(self)@.cells, |t: TextModel| t.pending_url is Some, 0) {
                Some((r, c)) => {
                    let t = old(self)@.cells[r][c].text;
                    &&& optional_bytes(url) == t.pending_url
                    &&& final(self)@ == old(self)@.saying(
                        r,
                        c,
                        TextModel { pending_url: None, ..t },
                    )
                },
                None => url is None && final(self)@ == old(self)@,
            },
            final(self)@.wf(),
    {
        let ghost p = |t: TextModel| t.pending_url is Some;
        let ghost g = self@.cells;
        let ghost before = self@;
        let mut r: usize = 0;
        while r < self.cells.len()
            invariant
                r <= self.cells.len(),
                g == grid_view(self.cells@),
                self@ == before,
                before == old(self)@,
                g == before.cells,
                before.wf(),
                p == (|t: TextModel| t.pending_url is Some),
                grid_first(g, p, 0) == grid_first(g, p, r as int),
            decreases self.cells.len() - r,
        {
            assert(g[r as int] == views(self.cells@[r as int]@));
            let mut c: usize = 0;
            while c < self.cells[r].len()
                invariant
                    r < self.cells.len(),
                    c <= self.cells@[r as int].len(),
                    g == grid_view(self.cells@),
                    g == before.cells,
                    g[r as int] == views(self.cells@[r as int]@),
                    self@ == before,
                    before == old(self)@,
                    before.wf(),
                    p == (|t: TextModel| t.pending_url is Some),
                    grid_first(g, p, 0) == grid_first(g, p, r as int),
                    row_first(g[r as int], p, 0) == row_first(g[r as int], p, c as int),
                decreases self.cells@[r as int].len() - c,
            {
                assert(g[r as int][c as int] == self.cells@[r as int]@[c as int]@);
                let ghost t = g[r as int][c as int].text;
                assert(t.wf());
                if self.cells[r][c].textbox.has_pending_link() {
                    let mut url: Option<String> = None;
                    if let Some(e) = self.cell_at_mut(r, c) {
                        url = e.textbox.take_pending_link_url();
                    }
                    proof {
                        let after = TextModel { pending_url: None, ..t };
                        assert(self@ =~~= before.saying(r as int, c as int, after));
                        lemma_saying_wf(before, r as int, c as int, after);
                    }
                    return url;
                }
                c += 1;
            }
            r += 1;
        }
        None
    }

    /// The tag that the last press of the mouse button marked in an entry,
    /// handed out once.
    pub fn take_pending_tag_name(&mut self) -> (name: Option<String>)
        requires
            old(self)@.wf(),
        ensures
            match grid_first(old(self)@.cells, |t: TextModel| t.pending_tag is Some, 0) {
                Some((r, c)) => {
                    let t = old(self)@.cells[r][c].text;
                    &&& optional_bytes(name) == t.pending_tag
                    &&& final(self)@ == old(self)@.saying(
                        r,
                        c,
                        TextModel { pending_tag: None, ..t },
                    )
                },
                None => name is None && final(self)@ == old(self)@,
            },
            final(self)@.wf(),
    {
        let ghost p = |t: TextModel| t.pending_tag is Some;
        let ghost g = self@.cells;
        let ghost before = self@;
        let mut r: usize = 0;
        while r < self.cells.len()
            invariant
                r <= self.cells.len(),
                g == grid_view(self.cells@),
                self@ == before,
                before == old(self)@,
                g == before.cells,
                before.wf(),
                p == (|t: TextModel| t.pending_tag is Some),
                grid_first(g, p, 0) == grid_first(g, p, r as int),
            decreases self.cells.len() - r,
        {
            assert(g[r as int] == views(self.cells@[r as int]@));
            let mut c: usize = 0;
            while c < self.cells[r].len()
                invariant
                    r < self.cells.len(),
                    c <= self.cells@[r as int].len(),
                    g == grid_view(self.cells@),
                    g == before.cells,
                    g[r as int] == views(self.cells@[r as int]@),
                    self@ == before,
                    before == old(self)@,
                    before.wf(),
                    p == (|t: TextModel| t.pending_tag is Some),
                    grid_first(g, p, 0) == grid_first(g, p, r as int),
                    row_first(g[r as int], p, 0) == row_first(g[r as int], p, c as int),
                decreases self.cells@[r as int].len() - c,
            {
                assert(g[r as int][c as int] == self.cells@[r as int]@[c as int]@);
                let ghost t = g[r as int][c as int].text;
                assert(t.wf());
                if self.cells[r][c].textbox.has_pending_tag() {
                    let mut name: Option<String> = None;
                    if let Some(e) = self.cell_at_mut(r, c) {
                        name = e.textbox.take_pending_tag_name();
                    }
                    proof {
                        let after = TextModel { pending_tag: None, ..t };
                        assert(self@ =~~= before.saying(r as int, c as int, after));
                        lemma_saying_wf(before, r as int, c as int, after);
                    }
                    return name;
                }
                c += 1;
            }
            r += 1;
        }
        None
    }

    /// Selects the text of the focused entry.
    pub fn select_all_focused(&mut self)
        requires
            old(self)@.wf(),
        ensures
            final(self)@ == old(self)@.focused_selected(),
            final(self)@.wf(),
    {
        let ghost before = self@;
        let (r, c) = self.focused;
        if !self.has(r, c) {
            return ;
        }
        let ghost t = before.cells[r as int][c as int].text;
        assert(t.wf());
        if let Some(e) = self.cell_at_mut(r, c) {
            e.textbox.select_all();
        }
        proof {
            assert(self@ =~~= before.saying(r as int, c as int, all_selected(t)));
            lemma_saying_wf(before, r as int, c as int, all_selected(t));
        }
    }

    /// Replaces a part of the focused text, unless it can only be read.
    pub fn replace_focused(
        &mut self,
        range: Range<usize>,
        text: String,
        how: Replacement,
        now: u64,
    )
        requires
            old(self)@.wf(),
            old(self)@.editable() ==> {
                &&& edit_fits(old(self)@.focused_text().doc.text, edit_of(range, text))
                &&& old(self)@.focused_text().doc.room(utf8(text@).len() as int)
            },
        ensures
            final(self)@ == old(self)@.focused_edited(how.on(edit_of(range, text), now)),
            final(self)@.wf(),
    {
        let ghost before = self@;
        let (r, c) = self.focused;
        if !self.has(r, c) || self.cells[r][c].readonly {
            return ;
        }
        let ghost t = before.cells[r as int][c as int].text;
        let ghost after = how.on(edit_of(range, text), now)(t);
        assert(t.wf());
        if let Some(e) = self.cell_at_mut(r, c) {
            how.run(&mut e.textbox, range, text, now);
        }
        proof {
            assert(self@ =~~= before.saying(r as int, c as int, after));
            lemma_saying_wf(before, r as int, c as int, after);
        }
    }

    /// Attaches a link to the first entry.
    pub fn add_link_to_first(&mut self, range: Range<usize>, url: String)
        requires
            old(self)@.wf(),
        ensures
            final(self)@ == old(self)@.first_linked(
                range.start as int,
                range.end as int,
                utf8(url@),
            ),
            final(self)@.wf(),
    {
        let ghost before = self@;
        if !self.has(0, 0) {
            return ;
        }
        let ghost t = before.cells[0][0].text;
        assert(t.wf());
        let ghost after = t.linking(
            with_link(
                t.doc.text,
                t.doc.links,
                range.start as int,
                range.end as int,
                utf8(url@),
            ),
        );
        if let Some(e) = self.cell_at_mut(0, 0) {
            e.textbox.add_link(range, url);
        }
        proof {
            assert(self@ =~~= before.saying(0, 0, after));
            lemma_saying_wf(before, 0, 0, after);
        }
    }

    /// Moves the focus to the first entry, the caret to its start.
    pub fn place_caret_at_start(&mut self)
        requires
            old(self)@.wf(),
        ensures
            final(self)@ == old(self)@.caret_at_start(),
            final(self)@.wf(),
    {
        if self.has(0, 0) {
            self.focus_cell(0, 0);
            self.put_caret(0, 0, 0);
        }
    }

    /// Moves the focus to the last entry, the caret to its end.
    pub fn place_caret_at_end(&mut self)
        requires
            old(self)@.wf(),
        ensures
            final(self)@ == old(self)@.caret_at_end(),
            final(self)@.wf(),
    {
        let n: usize = self.cells.len();
        if n == 0 {
            return ;
        }
        assert(self@.cells[n - 1] == views(self.cells@[n - 1]@));
        let m: usize = self.cells[n - 1].len();
        if m == 0 {
            return ;
        }
        self.focus_cell(n - 1, m - 1);
        let ghost there = self@;
        assert(there.holds(n - 1, m - 1));
        if self.has(n - 1, m - 1) {
            let end: usize = text::len(self.cells[n - 1][m - 1].textbox.text());
            self.put_caret(n - 1, m - 1, end);
        }
    }

    /// What is selected in the first entry that has anything selected, with its
    /// links.
    pub fn copy_primary_selection_with_links(&self) -> (r: Option<(String, Vec<LinkSpan>)>)
        requires
            self@.wf(),
        ensures
            picked_view(r) == self@.picked(),
    {
        let ghost p = |t: TextModel| t.primary_text().len() > 0;
        let ghost g = self@.cells;
        let mut r: usize = 0;
        while r < self.cells.len()
            invariant
                r <= self.cells.len(),
                g == grid_view(self.cells@),
                g == self@.cells,
                grid_wf(g),
                p == (|t: TextModel| t.primary_text().len() > 0),
                grid_first(g, p, 0) == grid_first(g, p, r as int),
            decreases self.cells.len() - r,
        {
            assert(g[r as int] == views(self.cells@[r as int]@));
            let mut c: usize = 0;
            while c < self.cells[r].len()
                invariant
                    r < self.cells.len(),
                    c <= self.cells@[r as int].len(),
                    g == grid_view(self.cells@),
                    g == self@.cells,
                    grid_wf(g),
                    g[r as int] == views(self.cells@[r as int]@),
                    p == (|t: TextModel| t.primary_text().len() > 0),
                    grid_first(g, p, 0) == grid_first(g, p, r as int),
                    row_first(g[r as int], p, 0) == row_first(g[r as int], p, c as int),
                decreases self.cells@[r as int].len() - c,
            {
                assert(g[r as int][c as int] == self.cells@[r as int]@[c as int]@);
                assert(g[r as int][c as int].text.wf());
                let s = self.cells[r][c].textbox.copy_primary_selection_with_links();
                if s.is_some() {
                    return s;
                }
                c += 1;
            }
            r += 1;
        }
        None
    }

    /// Whether anything is selected in an entry.
    pub fn has_selection(&self) -> (any: bool)
        ensures
            any == (exists|r: int, c: int|
                #![trigger self@.cells[r][c]]
                self@.holds(r, c) && self@.cells[r][c].text.has_selection()),
    {
        let ghost g = self@.cells;
        let mut r: usize = 0;
        while r < self.cells.len()
            invariant
                r <= self.cells.len(),
                g == grid_view(self.cells@),
                g == self@.cells,
                forall|i: int, c: int|
                    #![trigger g[i][c]]
                    0 <= i < r && 0 <= c < g[i].len() ==> !g[i][c].text.has_selection(),
            decreases self.cells.len() - r,
        {
            assert(g[r as int] == views(self.cells@[r as int]@));
            let mut c: usize = 0;
            while c < self.cells[r].len()
                invariant
                    r < self.cells.len(),
                    c <= self.cells@[r as int].len(),
                    g == grid_view(self.cells@),
                    g == self@.cells,
                    g[r as int] == views(self.cells@[r as int]@),
                    forall|k: int|
                        0 <= k < c ==> !(#[trigger] g[r as int][k]).text.has_selection(),
                decreases self.cells@[r as int].len() - c,
            {
                assert(g[r as int][c as int] == self.cells@[r as int]@[c as int]@);
                if self.cells[r][c].textbox.has_selection() {
                    assert(self@.holds(r as int, c as int));
                    return true;
                }
                c += 1;
            }
            r += 1;
        }
        false
    }

    /// Puts the addresses of all links in the entries behind `out`.
    pub fn all_link_urls_into(&self, out: &mut Vec<String>)
        ensures
            bytes_of(final(out)@) == bytes_of(old(out)@) + grid_urls(
                self@.cells,
                self@.cells.len() as int,
            ),
    {
        let ghost g = self@.cells;
        let ghost start = bytes_of(out@);
        let mut r: usize = 0;
        assert(start + grid_urls(g, 0) =~= start);
        while r < self.cells.len()
            invariant
                r <= self.cells.len(),
                g == grid_view(self.cells@),
                bytes_of(out@) == start + grid_urls(g, r as int),
            decreases self.cells.len() - r,
        {
            assert(g[r as int] == views(self.cells@[r as int]@));
            let ghost ts = row_texts(g[r as int]);
            let ghost led = bytes_of(out@);
            let mut c: usize = 0;
            assert(led + link_urls(ts, 0) =~= led);
            while c < self.cells[r].len()
                invariant
                    r < self.cells.len(),
                    c <= self.cells@[r as int].len(),
                    ts == row_texts(views(self.cells@[r as int]@)),
                    bytes_of(out@) == led + link_urls(ts, c as int),
                decreases self.cells@[r as int].len() - c,
            {
                assert(ts[c as int] == self.cells@[r as int]@[c as int]@.text);
                push_link_urls(&self.cells[r][c].textbox, out);
                c += 1;
                assert(bytes_of(out@) =~= led + link_urls(ts, c as int));
            }
            r += 1;
            assert(bytes_of(out@) =~= start + grid_urls(g, r as int));
        }
    }

    /// Puts the tags of the entries that `out` does not hold yet behind it.
    pub fn all_tag_names_into(&self, out: &mut Vec<String>)
        ensures
            bytes_of(final(out)@) == grid_tags(
                bytes_of(old(out)@),
                self@.cells,
                self@.cells.len() as int,
            ),
    {
        let ghost g = self@.cells;
        let ghost start = bytes_of(out@);
        let mut r: usize = 0;
        while r < self.cells.len()
            invariant
                r <= self.cells.len(),
                g == grid_view(self.cells@),
                bytes_of(out@) == grid_tags(start, g, r as int),
            decreases self.cells.len() - r,
        {
            assert(g[r as int] == views(self.cells@[r as int]@));
            let ghost ts = row_texts(g[r as int]);
            let ghost led = bytes_of(out@);
            let mut c: usize = 0;
            while c < self.cells[r].len()
                invariant
                    r < self.cells.len(),
                    c <= self.cells@[r as int].len(),
                    ts == row_texts(views(self.cells@[r as int]@)),
                    bytes_of(out@) == tag_names(led, ts, c as int),
                decreases self.cells@[r as int].len() - c,
            {
                assert(ts[c as int] == self.cells@[r as int]@[c as int]@.text);
                self.cells[r][c].textbox.all_tag_names_into(out);
                c += 1;
            }
            r += 1;
        }
    }
}

/// The addresses of all links in the first `n` rows.
pub open spec fn grid_urls(cells: Seq<Seq<EntryModel>>, n: int) -> Seq<Seq<u8>>
    decreases n,
{
    if n <= 0 {
        Seq::empty()
    } else {
        grid_urls(cells, n - 1) + link_urls(row_texts(cells[n - 1]), cells[n - 1].len() as int)
    }
}

/// `names` and the tags of the first `n` rows, each once, in order.
pub open spec fn grid_tags(names: Seq<Seq<u8>>, cells: Seq<Seq<EntryModel>>, n: int) -> Seq<
    Seq<u8>,
>
    decreases n,
{
    if n <= 0 {
        names
    } else {
        tag_names(
            grid_tags(names, cells, n - 1),
            row_texts(cells[n - 1]),
            cells[n - 1].len() as int,
        )
    }
}

fn clamp_to(i: usize, n: usize) -> (r: usize)
    ensures
        r == within(i, n as int),
{
    let last: usize = if n < 1 {
        0
    } else {
        n - 1
    };
    if i < last {
        i
    } else {
        last
    }
}

/// The links that pairs of range and address denote.
pub open spec fn link_pairs(v: Seq<(Range<usize>, String)>) -> Seq<Link> {
    Seq::new(
        v.len(),
        |i: int|
            Link { start: v[i].0.start as int, end: v[i].0.end as int, url: utf8(v[i].1@) },
    )
}

/// The mathematical content of a stored entry.
pub open spec fn record_view(e: (String, Vec<(Range<usize>, String)>, bool)) -> RecordModel {
    RecordModel { text: utf8(e.0@), links: link_pairs(e.1@), readonly: e.2 }
}

/// The mathematical content of a stored row.
pub open spec fn record_row_view(
    row: Seq<(String, Vec<(Range<usize>, String)>, bool)>,
) -> Seq<RecordModel> {
    Seq::new(row.len(), |c: int| record_view(row[c]))
}

/// The mathematical content of stored rows.
pub open spec fn records_view(
    rows: Seq<Vec<(String, Vec<(Range<usize>, String)>, bool)>>,
) -> Seq<Seq<RecordModel>> {
    Seq::new(rows.len(), |r: int| record_row_view(rows[r]@))
}

fn row_from_records(
    row: &Vec<(String, Vec<(Range<usize>, String)>, bool)>,
    cols: usize,
) -> (out: Vec<TableEntry>)
    ensures
        views(out@) == row_of_records(record_row_view(row@), cols as int),
        forall|c: int| 0 <= c < out@.len() ==> (#[trigger] out@[c])@.text.wf(),
{
    let ghost recs = record_row_view(row@);
    let mut out: Vec<TableEntry> = Vec::new();
    let mut c: usize = 0;
    while c < row.len()
        invariant
            c <= row.len(),
            recs == record_row_view(row@),
            out@.len() == c,
            forall|k: int|
                0 <= k < c ==> (#[trigger] out@[k])@ == recs[k].entry() && out@[k]@.text.wf(),
        decreases row.len() - c,
    {
        assert(recs[c as int] == record_view(row@[c as int]));
        let e = &row[c];
        out.push(entry_from_record(&e.0, &e.1, e.2));
        c += 1;
    }
    while out.len() < cols
        invariant
            out@.len() >= recs.len(),
            out@.len() <= cols || out@.len() == recs.len(),
            forall|k: int|
                0 <= k < recs.len() ==> (#[trigger] out@[k])@ == recs[k].entry()
                    && out@[k]@.text.wf(),
            forall|k: int|
                recs.len() <= k < out@.len() ==> (#[trigger] out@[k])@ == EntryModel::fresh()
                    && out@[k]@.text.wf(),
        decreases cols - out.len(),
    {
        out.push(empty_entry());
    }
    assert(views(out@) =~= row_of_records(recs, cols as int));
    out
}

fn entry_from_record(
    text: &String,
    links: &Vec<(Range<usize>, String)>,
    readonly: bool,
) -> (e: TableEntry)
    ensures
        e@ == (RecordModel { text: utf8(text@), links: link_pairs(links@), readonly }).entry(),
        e@.text.wf(),
{
    let ghost b = utf8(text@);
    let ghost more = link_pairs(links@);
    let mut tb = TextBox::new(text::copy(text.as_str()));
    let ghost fresh = tb@;
    let mut i: usize = 0;
    assert(more.subrange(0, 0) =~= Seq::<Link>::empty());
    assert(fresh.linking(Seq::empty()) =~= fresh);
    while i < links.len()
        invariant
            i <= links.len(),
            b == utf8(text@),
            more == link_pairs(links@),
            fresh == TextModel::fresh(b),
            tb@ == fresh.linking(with_links(b, Seq::empty(), more.subrange(0, i as int))),
            tb@.wf(),
        decreases links.len() - i,
    {
        proof {
            let upto = more.subrange(0, i + 1);
            assert(upto.drop_last() =~= more.subrange(0, i as int));
            assert(upto.last() == more[i as int]);
        }
        tb.add_link(copy_range(&links[i].0), text::copy(links[i].1.as_str()));
        i += 1;
        assert(tb@ =~= fresh.linking(with_links(b, Seq::empty(), more.subrange(0, i as int))));
    }
    assert(more.subrange(0, i as int) =~= more);
    TableEntry { textbox: tb, readonly }
}

/// What undo restores of an entry.
pub struct TableEntrySnapshot {
    pub textbox: TextBoxSnapshot,
    pub readonly: bool,
}

impl View for TableEntrySnapshot {
    type V = EntryDoc;

    open spec fn view(&self) -> EntryDoc {
        EntryDoc { doc: self.textbox@, readonly: self.readonly }
    }
}

/// What undo restores of a table.
pub struct TableSnapshot {
    pub cells: Vec<Vec<TableEntrySnapshot>>,
}

impl View for TableSnapshot {
    type V = Seq<Seq<EntryDoc>>;

    open spec fn view(&self) -> Seq<Seq<EntryDoc>> {
        Seq::new(self.cells@.len(), |r: int| views(self.cells@[r]@))
    }
}

/// Putting a well formed text into a table keeps it well formed.
pub proof fn lemma_saying_wf(m: TableModel, r: int, c: int, t: TextModel)
    requires
        m.wf(),
        m.holds(r, c),
        t.wf(),
    ensures
        m.saying(r, c, t).wf(),
{
    let after = m.saying(r, c, t).cells;
    assert forall|i: int, j: int|
        #![trigger after[i][j]]
        0 <= i < after.len() && 0 <= j < after[i].len() implies after[i][j].text.wf() by {
        if i == r && j == c {
            assert(after[i][j].text == t);
        } else {
            assert(m.cells[i][j].text.wf());
        }
    }
}

/// Moving the focus changes no text.
pub proof fn lemma_focusing_texts(m: TableModel, r: usize, c: usize, i: int, j: int)
    requires
        m.holds(i, j),
    ensures
        m.focusing(r, c).cells[i][j].text.doc.text == m.cells[i][j].text.doc.text,
        m.focusing(r, c).cells[i][j].readonly == m.cells[i][j].readonly,
{
}

} // verus!
