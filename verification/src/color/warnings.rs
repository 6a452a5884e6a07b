//! What is wrong with a palette file.
use vstd::prelude::*;
use vstd::utf8::*;

use crate::text;
use crate::cell::wrap::Span;
use crate::clipboard::plain::{line_spans_of, lines_lie, split_lines, text_lines};
use crate::color::{
    color_read, line_read, palette_set, palette_upto, read_color, trim, trimmed, value_at,
    value_span, Color, Palette,
};
use crate::text::{
    boundary, first_byte, lemma_after_ascii, lemma_ascii_is_boundary, lemma_first_byte,
    lemma_utf8_valid, utf8, views,
};

verus! {

/// A key of the palette.
pub open spec fn known_key(key: Seq<u8>) -> bool {
    ||| key == utf8("bg_page"@)
    ||| key == utf8("bg_panel"@)
    ||| key == utf8("bg_card"@)
    ||| key == utf8("text_primary"@)
    ||| key == utf8("text_menu_row"@)
    ||| key == utf8("text_muted_grey"@)
    ||| key == utf8("text_muted_warm_deep"@)
    ||| key == utf8("text_muted_warm"@)
    ||| key == utf8("text_muted_warm_soft"@)
    ||| key == utf8("text_section_header"@)
    ||| key == utf8("sidebar_text_primary"@)
    ||| key == utf8("sidebar_section_header"@)
    ||| key == utf8("pane_header_bg"@)
    ||| key == utf8("text_selection_view"@)
    ||| key == utf8("text_selection_edit"@)
    ||| key == utf8("bullet_marker"@)
    ||| key == utf8("text_ghost"@)
    ||| key == utf8("text_disabled"@)
    ||| key == utf8("text_ghost_warm"@)
    ||| key == utf8("link_text"@)
    ||| key == utf8("poppop_output"@)
    ||| key == utf8("poppop_comment"@)
    ||| key == utf8("poppop_error"@)
    ||| key == utf8("accent_blue"@)
    ||| key == utf8("accent_blue_selection"@)
    ||| key == utf8("accent_blue_pane_border"@)
    ||| key == utf8("accent_blue_focus_edit"@)
    ||| key == utf8("embed_border"@)
    ||| key == utf8("embed_tint"@)
    ||| key == utf8("embed_hover"@)
    ||| key == utf8("cell_bar_default"@)
    ||| key == utf8("cell_bar_snoozed"@)
    ||| key == utf8("cell_bar_resurfaced"@)
    ||| key == utf8("cell_bar_closed"@)
    ||| key == utf8("delete_text"@)
    ||| key == utf8("delete_hover_bg"@)
    ||| key == utf8("menu_border"@)
    ||| key == utf8("panel_border_warm"@)
    ||| key == utf8("divider_pane"@)
    ||| key == utf8("divider_pane_hover"@)
    ||| key == utf8("hairline_divider"@)
    ||| key == utf8("hover_faint"@)
    ||| key == utf8("button_border_faint"@)
    ||| key == utf8("toggle_off_bg"@)
    ||| key == utf8("toggle_inactive_bg"@)
    ||| key == utf8("heading_rule"@)
    ||| key == utf8("shadow_soft"@)
    ||| key == utf8("shadow_menu"@)
    ||| key == utf8("grid_stripe"@)
    ||| key == utf8("grid_divider"@)
    ||| key == utf8("dark_alpha_base"@)
}

/// What is wrong with a line of a palette file.
#[verifier::ext_equal]
pub enum WarningModel {
    /// The line, counted from one, has no colon.
    MissingColon(int),
    /// The line, counted from one, gives no color: the value, and the key.
    BadColor(int, Seq<u8>, Seq<u8>),
    /// The palette has no such key.
    UnknownKey(Seq<u8>),
}

/// What is wrong with the line, which is number `n`. Blank lines and comments are
/// never wrong.
pub open spec fn line_warning(b: Seq<u8>, line: Span, n: int) -> Option<WarningModel> {
    let l = trimmed(b, line.start, line.end);
    let colon = first_byte(b, 58, l.start);
    if l.start >= l.end || b[l.start] == 35 {
        None
    } else if colon >= l.end {
        Some(WarningModel::MissingColon(n))
    } else {
        let k = trimmed(b, l.start, colon);
        let raw = trimmed(b, colon + 1, l.end);
        let v = value_span(b, raw.start, raw.end);
        let key = b.subrange(k.start, k.end);
        if color_read(b, v.start, v.end) is None {
            Some(WarningModel::BadColor(n, b.subrange(v.start, v.end), key))
        } else if known_key(key) {
            None
        } else {
            Some(WarningModel::UnknownKey(key))
        }
    }
}

/// What is wrong with the first `n` lines.
pub open spec fn warnings_upto(b: Seq<u8>, lines: Seq<Span>, n: int) -> Seq<WarningModel>
    decreases n,
{
    if n <= 0 {
        Seq::empty()
    } else {
        let before = warnings_upto(b, lines, n - 1);
        match line_warning(b, lines[n - 1], n) {
            Some(w) => before.push(w),
            None => before,
        }
    }
}

/// What is wrong with a palette file.
pub open spec fn palette_warnings(b: Seq<u8>) -> Seq<WarningModel> {
    let lines = text_lines(b, 0);
    warnings_upto(b, lines, lines.len() as int)
}

/// What is wrong with a line of a palette file.
#[derive(Clone, Debug, PartialEq, Eq)]
pub enum PaletteWarning {
    MissingColon { line: usize },
    BadColor { line: usize, value: String, key: String },
    UnknownKey { key: String },
}

impl View for PaletteWarning {
    type V = WarningModel;

    open spec fn view(&self) -> WarningModel {
        match self {
            PaletteWarning::MissingColon { line } => WarningModel::MissingColon(*line as int),
            PaletteWarning::BadColor { line, value, key } => WarningModel::BadColor(
                *line as int,
                utf8(value@),
                utf8(key@),
            ),
            PaletteWarning::UnknownKey { key } => WarningModel::UnknownKey(utf8(key@)),
        }
    }
}

/// A color under a key that the palette does not know changes nothing.
pub proof fn unknown_keys_change_nothing(p: Palette, key: Seq<u8>, value: Color)
    requires
        !known_key(key),
    ensures
        palette_set(p, key, value) == p,
{
}

/// A line that something is wrong with changes nothing.
pub proof fn lines_warned_about_change_nothing(b: Seq<u8>, lines: Seq<Span>, n: int)
    requires
        0 < n <= lines.len(),
        line_warning(b, lines[n - 1], n) is Some,
    ensures
        palette_upto(b, lines, n) == palette_upto(b, lines, n - 1),
{
    if let Some((key, c)) = line_read(b, lines[n - 1]) {
        unknown_keys_change_nothing(palette_upto(b, lines, n - 1), key, c);
    }
}

/// Whether the palette has the key.
pub fn is_known_key(key: &str) -> (r: bool)
    ensures
        r == known_key(utf8(key@)),
{
    text::same(key, "bg_page")
        || text::same(key, "bg_panel")
        || text::same(key, "bg_card")
        || text::same(key, "text_primary")
        || text::same(key, "text_menu_row")
        || text::same(key, "text_muted_grey")
        || text::same(key, "text_muted_warm_deep")
        || text::same(key, "text_muted_warm")
        || text::same(key, "text_muted_warm_soft")
        || text::same(key, "text_section_header")
        || text::same(key, "sidebar_text_primary")
        || text::same(key, "sidebar_section_header")
        || text::same(key, "pane_header_bg")
        || text::same(key, "text_selection_view")
        || text::same(key, "text_selection_edit")
        || text::same(key, "bullet_marker")
        || text::same(key, "text_ghost")
        || text::same(key, "text_disabled")
        || text::same(key, "text_ghost_warm")
        || text::same(key, "link_text")
        || text::same(key, "poppop_output")
        || text::same(key, "poppop_comment")
        || text::same(key, "poppop_error")
        || text::same(key, "accent_blue")
        || text::same(key, "accent_blue_selection")
        || text::same(key, "accent_blue_pane_border")
        || text::same(key, "accent_blue_focus_edit")
        || text::same(key, "embed_border")
        || text::same(key, "embed_tint")
        || text::same(key, "embed_hover")
        || text::same(key, "cell_bar_default")
        || text::same(key, "cell_bar_snoozed")
        || text::same(key, "cell_bar_resurfaced")
        || text::same(key, "cell_bar_closed")
        || text::same(key, "delete_text")
        || text::same(key, "delete_hover_bg")
        || text::same(key, "menu_border")
        || text::same(key, "panel_border_warm")
        || text::same(key, "divider_pane")
        || text::same(key, "divider_pane_hover")
        || text::same(key, "hairline_divider")
        || text::same(key, "hover_faint")
        || text::same(key, "button_border_faint")
        || text::same(key, "toggle_off_bg")
        || text::same(key, "toggle_inactive_bg")
        || text::same(key, "heading_rule")
        || text::same(key, "shadow_soft")
        || text::same(key, "shadow_menu")
        || text::same(key, "grid_stripe")
        || text::same(key, "grid_divider")
        || text::same(key, "dark_alpha_base")
}

fn warn_of(s: &str, start: usize, end: usize, n: usize) -> (w: Option<PaletteWarning>)
    requires
        start <= end <= utf8(s@).len(),
        boundary(utf8(s@), start as int),
        boundary(utf8(s@), end as int),
    ensures
        match w {
            Some(x) => Some(x@),
            None => None,
        } == line_warning(utf8(s@), (Span { start: start as int, end: end as int }), n as int),
{
    let ghost b = utf8(s@);
    proof {
        lemma_utf8_valid(s@);
    }
    let (lo, hi) = trim(s, start, end);
    if lo >= hi || text::byte_at(s, lo) == 35 {
        return None;
    }
    let colon: usize = text::find_byte(s, 58, lo);
    proof {
        lemma_first_byte(b, 58, lo as int);
    }
    if colon >= hi {
        return Some(PaletteWarning::MissingColon { line: n });
    }
    proof {
        lemma_ascii_is_boundary(b, colon as int);
        lemma_after_ascii(b, colon as int);
    }
    let (k0, k1) = trim(s, lo, colon);
    let (r0, r1) = trim(s, colon + 1, hi);
    let (v0, v1) = value_at(s, r0, r1);
    let key = text::slice(s, k0, k1);
    if read_color(s, v0, v1).is_none() {
        let value = text::copy(text::slice(s, v0, v1));
        return Some(PaletteWarning::BadColor { line: n, value, key: text::copy(key) });
    }
    if is_known_key(key) {
        None
    } else {
        Some(PaletteWarning::UnknownKey { key: text::copy(key) })
    }
}

impl Palette {
    /// What is wrong with a palette file, line by line.
    pub fn warnings(s: &str) -> (ws: Vec<PaletteWarning>)
        ensures
            views(ws@) == palette_warnings(utf8(s@)),
    {
        let ghost b = utf8(s@);
        let lines = split_lines(s);
        let ghost ls = line_spans_of(lines@);
        let mut ws: Vec<PaletteWarning> = Vec::new();
        let mut i: usize = 0;
        assert(views(ws@) =~= warnings_upto(b, ls, 0));
        while i < lines.len()
            invariant
                i <= lines.len(),
                b == utf8(s@),
                ls == line_spans_of(lines@),
                lines_lie(b, ls),
                views(ws@) == warnings_upto(b, ls, i as int),
            decreases lines.len() - i,
        {
            let (start, end) = lines[i];
            assert(ls[i as int] == (Span { start: start as int, end: end as int }));
            let ghost held = ws@;
            if let Some(w) = warn_of(s, start, end, i + 1) {
                ws.push(w);
                assert(views(ws@) =~= views(held).push(w@));
            }
            i += 1;
        }
        ws
    }
}

} // verus!
