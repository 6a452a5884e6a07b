//! The palette: one color for each role, read from a file of `key: "#rrggbb"` lines.
pub mod file;
pub mod keys;
pub mod reading;
pub mod sections;
pub mod setting;
pub mod warnings;

use vstd::prelude::*;
use vstd::utf8::*;

use crate::text;
use crate::cell::wrap::{first_solid, lemma_trimmed_end, solid_from, trim_end_at, trimmed_end, Span};
use crate::clipboard::plain::{line_spans_of, lines_lie, split_lines, text_lines};
use crate::text::{
    boundary, first_byte, lemma_after_ascii, lemma_ascii_is_boundary, lemma_boundary_ends,
    lemma_first_byte, lemma_utf8_valid, utf8,
};

verus! {

/// A color: red, green and blue, and how opaque it is.
#[derive(Clone, Copy, Debug, PartialEq, Eq, Structural)]
pub struct Color {
    pub a: u8,
    pub r: u8,
    pub g: u8,
    pub b: u8,
}

impl Color {
    /// An opaque color.
    #[verifier::allow_in_spec]
    pub fn from_rgb(r: u8, g: u8, b: u8) -> (c: Color)
        returns
            (Color { a: 255, r, g, b }),
    {
        Color { a: 255, r, g, b }
    }

    /// A color that is `a` of 255 opaque.
    #[verifier::allow_in_spec]
    pub fn from_argb(a: u8, r: u8, g: u8, b: u8) -> (c: Color)
        returns
            (Color { a, r, g, b }),
    {
        Color { a, r, g, b }
    }

    /// The same color, `a` of 255 opaque.
    #[verifier::allow_in_spec]
    pub fn with_alpha(self, a: u8) -> (c: Color)
        returns
            (Color { a, ..self }),
    {
        Color { a, r: self.r, g: self.g, b: self.b }
    }
}

/// One color for each role.
#[derive(Clone, Copy)]
pub struct Palette {
    // Page surfaces.
    pub bg_page: Color,
    pub bg_panel: Color,
    pub bg_card: Color,
    // Text.
    pub text_primary: Color,
    pub text_menu_row: Color,
    pub text_muted_grey: Color,
    pub text_muted_warm_deep: Color,
    pub text_muted_warm: Color,
    pub text_muted_warm_soft: Color,
    pub text_section_header: Color,
    pub sidebar_text_primary: Color,
    pub sidebar_section_header: Color,
    pub pane_header_bg: Color,
    pub text_selection_view: Color,
    pub text_selection_edit: Color,
    pub bullet_marker: Color,
    pub text_ghost: Color,
    pub text_disabled: Color,
    pub text_ghost_warm: Color,
    // Links and the calculator.
    pub link_text: Color,
    pub poppop_output: Color,
    pub poppop_comment: Color,
    pub poppop_error: Color,
    // Focus and selection.
    pub accent_blue: Color,
    pub accent_blue_selection: Color,
    pub accent_blue_pane_border: Color,
    pub accent_blue_focus_edit: Color,
    // Embedded references.
    pub embed_border: Color,
    pub embed_tint: Color,
    pub embed_hover: Color,
    // The bar at the left edge of a cell.
    pub cell_bar_default: Color,
    pub cell_bar_snoozed: Color,
    pub cell_bar_resurfaced: Color,
    pub cell_bar_closed: Color,
    // Deleting.
    pub delete_text: Color,
    pub delete_hover_bg: Color,
    // Borders and dividers.
    pub menu_border: Color,
    pub panel_border_warm: Color,
    pub divider_pane: Color,
    pub divider_pane_hover: Color,
    pub hairline_divider: Color,
    pub hover_faint: Color,
    pub button_border_faint: Color,
    // Toggles and the rule below a heading.
    pub toggle_off_bg: Color,
    pub toggle_inactive_bg: Color,
    pub heading_rule: Color,
    // Shadows.
    pub shadow_soft: Color,
    pub shadow_menu: Color,
    // Grids.
    pub grid_stripe: Color,
    pub grid_divider: Color,
    // What `dark_alpha` is made of.
    pub dark_alpha_base: Color,
}

/// The palette that the app starts with.
pub open spec fn default_palette() -> Palette {
    Palette {
        bg_page: Color { a: 255, r: 233, g: 252, b: 239 },
        bg_panel: Color { a: 255, r: 210, g: 249, b: 223 },
        bg_card: Color { a: 255, r: 255, g: 255, b: 255 },
        text_primary: Color { a: 255, r: 3, g: 23, b: 12 },
        text_menu_row: Color { a: 255, r: 11, g: 91, b: 47 },
        text_muted_grey: Color { a: 255, r: 16, g: 137, b: 70 },
        text_muted_warm_deep: Color { a: 255, r: 11, g: 91, b: 47 },
        text_muted_warm: Color { a: 255, r: 16, g: 137, b: 70 },
        text_muted_warm_soft: Color { a: 255, r: 21, g: 183, b: 94 },
        text_section_header: Color { a: 255, r: 21, g: 183, b: 94 },
        sidebar_text_primary: Color { a: 255, r: 3, g: 23, b: 12 },
        sidebar_section_header: Color { a: 255, r: 21, g: 183, b: 94 },
        pane_header_bg: Color { a: 255, r: 94, g: 0, b: 128 },
        text_selection_view: Color { a: 255, r: 199, g: 227, b: 247 },
        text_selection_edit: Color { a: 255, r: 196, g: 247, b: 226 },
        bullet_marker: Color { a: 255, r: 16, g: 137, b: 70 },
        text_ghost: Color { a: 255, r: 121, g: 236, b: 159 },
        text_disabled: Color { a: 255, r: 166, g: 242, b: 191 },
        text_ghost_warm: Color { a: 255, r: 166, g: 242, b: 191 },
        link_text: Color { a: 255, r: 24, g: 115, b: 180 },
        poppop_output: Color { a: 255, r: 18, g: 86, b: 135 },
        poppop_comment: Color { a: 255, r: 18, g: 135, b: 71 },
        poppop_error: Color { a: 255, r: 154, g: 30, b: 30 },
        accent_blue: Color { a: 255, r: 31, g: 144, b: 224 },
        accent_blue_selection: Color { a: 64, r: 31, g: 144, b: 224 },
        accent_blue_pane_border: Color { a: 128, r: 31, g: 144, b: 224 },
        accent_blue_focus_edit: Color { a: 255, r: 31, g: 144, b: 224 },
        embed_border: Color { a: 255, r: 24, g: 58, b: 180 },
        embed_tint: Color { a: 12, r: 24, g: 58, b: 180 },
        embed_hover: Color { a: 32, r: 24, g: 58, b: 180 },
        cell_bar_default: Color { a: 72, r: 3, g: 23, b: 12 },
        cell_bar_snoozed: Color { a: 255, r: 216, g: 145, b: 42 },
        cell_bar_resurfaced: Color { a: 255, r: 24, g: 58, b: 180 },
        cell_bar_closed: Color { a: 112, r: 3, g: 23, b: 12 },
        delete_text: Color { a: 255, r: 192, g: 48, b: 48 },
        delete_hover_bg: Color { a: 32, r: 192, g: 48, b: 48 },
        menu_border: Color { a: 255, r: 166, g: 242, b: 191 },
        panel_border_warm: Color { a: 255, r: 165, g: 243, b: 200 },
        divider_pane: Color { a: 255, r: 166, g: 242, b: 191 },
        divider_pane_hover: Color { a: 255, r: 121, g: 236, b: 159 },
        hairline_divider: Color { a: 40, r: 3, g: 23, b: 12 },
        hover_faint: Color { a: 24, r: 3, g: 23, b: 12 },
        button_border_faint: Color { a: 64, r: 3, g: 23, b: 12 },
        toggle_off_bg: Color { a: 96, r: 21, g: 183, b: 94 },
        toggle_inactive_bg: Color { a: 48, r: 11, g: 91, b: 47 },
        heading_rule: Color { a: 128, r: 16, g: 137, b: 70 },
        shadow_soft: Color { a: 48, r: 0, g: 0, b: 0 },
        shadow_menu: Color { a: 64, r: 0, g: 0, b: 0 },
        grid_stripe: Color { a: 255, r: 233, g: 244, b: 252 },
        grid_divider: Color { a: 64, r: 16, g: 137, b: 70 },
        dark_alpha_base: Color { a: 255, r: 3, g: 23, b: 12 },
    }
}

/// The palette with the color of a role replaced; a key that names no role changes
/// nothing.
pub open spec fn palette_set(p: Palette, key: Seq<u8>, value: Color) -> Palette {
    if key == utf8("bg_page"@) {
        Palette { bg_page: value, ..p }
    } else if key == utf8("bg_panel"@) {
        Palette { bg_panel: value, ..p }
    } else if key == utf8("bg_card"@) {
        Palette { bg_card: value, ..p }
    } else if key == utf8("text_primary"@) {
        Palette { text_primary: value, ..p }
    } else if key == utf8("text_menu_row"@) {
        Palette { text_menu_row: value, ..p }
    } else if key == utf8("text_muted_grey"@) {
        Palette { text_muted_grey: value, ..p }
    } else if key == utf8("text_muted_warm_deep"@) {
        Palette { text_muted_warm_deep: value, ..p }
    } else if key == utf8("text_muted_warm"@) {
        Palette { text_muted_warm: value, ..p }
    } else if key == utf8("text_muted_warm_soft"@) {
        Palette { text_muted_warm_soft: value, ..p }
    } else if key == utf8("text_section_header"@) {
        Palette { text_section_header: value, ..p }
    } else if key == utf8("sidebar_text_primary"@) {
        Palette { sidebar_text_primary: value, ..p }
    } else if key == utf8("sidebar_section_header"@) {
        Palette { sidebar_section_header: value, ..p }
    } else if key == utf8("pane_header_bg"@) {
        Palette { pane_header_bg: value, ..p }
    } else if key == utf8("text_selection_view"@) {
        Palette { text_selection_view: value, ..p }
    } else if key == utf8("text_selection_edit"@) {
        Palette { text_selection_edit: value, ..p }
    } else if key == utf8("bullet_marker"@) {
        Palette { bullet_marker: value, ..p }
    } else if key == utf8("text_ghost"@) {
        Palette { text_ghost: value, ..p }
    } else if key == utf8("text_disabled"@) {
        Palette { text_disabled: value, ..p }
    } else if key == utf8("text_ghost_warm"@) {
        Palette { text_ghost_warm: value, ..p }
    } else if key == utf8("link_text"@) {
        Palette { link_text: value, ..p }
    } else if key == utf8("poppop_output"@) {
        Palette { poppop_output: value, ..p }
    } else if key == utf8("poppop_comment"@) {
        Palette { poppop_comment: value, ..p }
    } else if key == utf8("poppop_error"@) {
        Palette { poppop_error: value, ..p }
    } else if key == utf8("accent_blue"@) {
        Palette { accent_blue: value, ..p }
    } else if key == utf8("accent_blue_selection"@) {
        Palette { accent_blue_selection: value, ..p }
    } else if key == utf8("accent_blue_pane_border"@) {
        Palette { accent_blue_pane_border: value, ..p }
    } else if key == utf8("accent_blue_focus_edit"@) {
        Palette { accent_blue_focus_edit: value, ..p }
    } else if key == utf8("embed_border"@) {
        Palette { embed_border: value, ..p }
    } else if key == utf8("embed_tint"@) {
        Palette { embed_tint: value, ..p }
    } else if key == utf8("embed_hover"@) {
        Palette { embed_hover: value, ..p }
    } else if key == utf8("cell_bar_default"@) {
        Palette { cell_bar_default: value, ..p }
    } else if key == utf8("cell_bar_snoozed"@) {
        Palette { cell_bar_snoozed: value, ..p }
    } else if key == utf8("cell_bar_resurfaced"@) {
        Palette { cell_bar_resurfaced: value, ..p }
    } else if key == utf8("cell_bar_closed"@) {
        Palette { cell_bar_closed: value, ..p }
    } else if key == utf8("delete_text"@) {
        Palette { delete_text: value, ..p }
    } else if key == utf8("delete_hover_bg"@) {
        Palette { delete_hover_bg: value, ..p }
    } else if key == utf8("menu_border"@) {
        Palette { menu_border: value, ..p }
    } else if key == utf8("panel_border_warm"@) {
        Palette { panel_border_warm: value, ..p }
    } else if key == utf8("divider_pane"@) {
        Palette { divider_pane: value, ..p }
    } else if key == utf8("divider_pane_hover"@) {
        Palette { divider_pane_hover: value, ..p }
    } else if key == utf8("hairline_divider"@) {
        Palette { hairline_divider: value, ..p }
    } else if key == utf8("hover_faint"@) {
        Palette { hover_faint: value, ..p }
    } else if key == utf8("button_border_faint"@) {
        Palette { button_border_faint: value, ..p }
    } else if key == utf8("toggle_off_bg"@) {
        Palette { toggle_off_bg: value, ..p }
    } else if key == utf8("toggle_inactive_bg"@) {
        Palette { toggle_inactive_bg: value, ..p }
    } else if key == utf8("heading_rule"@) {
        Palette { heading_rule: value, ..p }
    } else if key == utf8("shadow_soft"@) {
        Palette { shadow_soft: value, ..p }
    } else if key == utf8("shadow_menu"@) {
        Palette { shadow_menu: value, ..p }
    } else if key == utf8("grid_stripe"@) {
        Palette { grid_stripe: value, ..p }
    } else if key == utf8("grid_divider"@) {
        Palette { grid_divider: value, ..p }
    } else if key == utf8("dark_alpha_base"@) {
        Palette { dark_alpha_base: value, ..p }
    } else {
        p
    }
}

/// A line that gives a role its color.
pub open spec fn row(key: Seq<char>, c: Color) -> Seq<u8> {
    utf8(key) + utf8(": \""@) + hex_of(c) + utf8("\"\n"@)
}

/// One part of a palette that is written down.
#[verifier::opaque]
pub open spec fn notes(p: Palette) -> Seq<u8> {
    utf8("# kept color palette — edit this file and the running app picks up changes\n"@)
        + utf8("# within ~250ms. Hex colors: `#rrggbb` (opaque) or `#rrggbbaa` (with alpha).\n"@)
        + utf8("# Lines starting with `#` are comments. Blank lines are fine.\n"@)
        + utf8("# Unknown keys are warned about on stderr; malformed lines are skipped.\n\n"@)
}

/// One part of a palette that is written down.
#[verifier::opaque]
pub open spec fn surface_rows(p: Palette) -> Seq<u8> {
    utf8("# Page surfaces\n"@)
        + row("bg_page"@, p.bg_page)
        + row("bg_panel"@, p.bg_panel)
        + row("bg_card"@, p.bg_card)
}

/// One part of a palette that is written down.
#[verifier::opaque]
pub open spec fn text_rows(p: Palette) -> Seq<u8> {
    utf8("\n# Text\n"@)
        + row("text_primary"@, p.text_primary)
        + row("text_menu_row"@, p.text_menu_row)
        + row("text_muted_grey"@, p.text_muted_grey)
        + row("text_muted_warm_deep"@, p.text_muted_warm_deep)
        + row("text_muted_warm"@, p.text_muted_warm)
}

/// One part of a palette that is written down.
#[verifier::opaque]
pub open spec fn sidebar_rows(p: Palette) -> Seq<u8> {
    row("text_muted_warm_soft"@, p.text_muted_warm_soft)
        + row("text_section_header"@, p.text_section_header)
        + row("sidebar_text_primary"@, p.sidebar_text_primary)
        + row("sidebar_section_header"@, p.sidebar_section_header)
        + row("pane_header_bg"@, p.pane_header_bg)
        + row("text_selection_view"@, p.text_selection_view)
}

/// One part of a palette that is written down.
#[verifier::opaque]
pub open spec fn faint_text_rows(p: Palette) -> Seq<u8> {
    row("text_selection_edit"@, p.text_selection_edit)
        + row("bullet_marker"@, p.bullet_marker)
        + row("text_ghost"@, p.text_ghost)
        + row("text_disabled"@, p.text_disabled)
        + row("text_ghost_warm"@, p.text_ghost_warm)
}

/// One part of a palette that is written down.
#[verifier::opaque]
pub open spec fn link_rows(p: Palette) -> Seq<u8> {
    utf8("\n# Inline links + Pop-Pop\n"@)
        + row("link_text"@, p.link_text)
        + row("poppop_output"@, p.poppop_output)
        + row("poppop_comment"@, p.poppop_comment)
        + row("poppop_error"@, p.poppop_error)
}

/// One part of a palette that is written down.
#[verifier::opaque]
pub open spec fn accent_rows(p: Palette) -> Seq<u8> {
    utf8("\n# Accent (focus / selection)\n"@)
        + row("accent_blue"@, p.accent_blue)
        + row("accent_blue_selection"@, p.accent_blue_selection)
        + row("accent_blue_pane_border"@, p.accent_blue_pane_border)
        + row("accent_blue_focus_edit"@, p.accent_blue_focus_edit)
}

/// One part of a palette that is written down.
#[verifier::opaque]
pub open spec fn embed_rows(p: Palette) -> Seq<u8> {
    utf8("\n# Reference embeds\n"@)
        + row("embed_border"@, p.embed_border)
        + row("embed_tint"@, p.embed_tint)
        + row("embed_hover"@, p.embed_hover)
}

/// One part of a palette that is written down.
#[verifier::opaque]
pub open spec fn bar_rows(p: Palette) -> Seq<u8> {
    utf8("\n# Cell left-edge state bars\n"@)
        + row("cell_bar_default"@, p.cell_bar_default)
        + row("cell_bar_snoozed"@, p.cell_bar_snoozed)
        + row("cell_bar_resurfaced"@, p.cell_bar_resurfaced)
        + row("cell_bar_closed"@, p.cell_bar_closed)
}

/// One part of a palette that is written down.
#[verifier::opaque]
pub open spec fn delete_rows(p: Palette) -> Seq<u8> {
    utf8("\n# Destructive\n"@)
        + row("delete_text"@, p.delete_text)
        + row("delete_hover_bg"@, p.delete_hover_bg)
}

/// One part of a palette that is written down.
#[verifier::opaque]
pub open spec fn border_rows(p: Palette) -> Seq<u8> {
    utf8("\n# Borders / dividers / hairlines\n"@)
        + row("menu_border"@, p.menu_border)
        + row("panel_border_warm"@, p.panel_border_warm)
        + row("divider_pane"@, p.divider_pane)
        + row("divider_pane_hover"@, p.divider_pane_hover)
        + row("hairline_divider"@, p.hairline_divider)
}

/// One part of a palette that is written down.
#[verifier::opaque]
pub open spec fn hover_rows(p: Palette) -> Seq<u8> {
    row("hover_faint"@, p.hover_faint)
        + row("button_border_faint"@, p.button_border_faint)
}

/// One part of a palette that is written down.
#[verifier::opaque]
pub open spec fn toggle_rows(p: Palette) -> Seq<u8> {
    utf8("\n# Toggles + heading rule\n"@)
        + row("toggle_off_bg"@, p.toggle_off_bg)
        + row("toggle_inactive_bg"@, p.toggle_inactive_bg)
        + row("heading_rule"@, p.heading_rule)
}

/// One part of a palette that is written down.
#[verifier::opaque]
pub open spec fn shadow_rows(p: Palette) -> Seq<u8> {
    utf8("\n# Drop shadows\n"@)
        + row("shadow_soft"@, p.shadow_soft)
        + row("shadow_menu"@, p.shadow_menu)
}

/// One part of a palette that is written down.
#[verifier::opaque]
pub open spec fn grid_rows(p: Palette) -> Seq<u8> {
    utf8("\n# Calc grid (Pop-Pop, Table)\n"@)
        + row("grid_stripe"@, p.grid_stripe)
        + row("grid_divider"@, p.grid_divider)
}

/// One part of a palette that is written down.
#[verifier::opaque]
pub open spec fn dark_rows(p: Palette) -> Seq<u8> {
    utf8("\n# Base used by the `dark_alpha(a)` runtime composer (cell outline,\n"@)
        + utf8("# scrollbar thumb, button background).\n"@)
        + row("dark_alpha_base"@, p.dark_alpha_base)
}

/// A palette written down: what can be edited, section by section.
pub open spec fn palette_text(p: Palette) -> Seq<u8> {
    notes(p) + surface_rows(p) + text_rows(p) + sidebar_rows(p) + faint_text_rows(p) + link_rows(p) + accent_rows(p) + embed_rows(p) + bar_rows(p) + delete_rows(p) + border_rows(p) + hover_rows(p) + toggle_rows(p) + shadow_rows(p) + grid_rows(p) + dark_rows(p)
}

impl Palette {
    /// The palette that the app starts with.
    pub fn defaults() -> (p: Palette)
        ensures
            p == default_palette(),
    {
        Palette {
            bg_page: Color { a: 255, r: 233, g: 252, b: 239 },
            bg_panel: Color { a: 255, r: 210, g: 249, b: 223 },
            bg_card: Color { a: 255, r: 255, g: 255, b: 255 },
            text_primary: Color { a: 255, r: 3, g: 23, b: 12 },
            text_menu_row: Color { a: 255, r: 11, g: 91, b: 47 },
            text_muted_grey: Color { a: 255, r: 16, g: 137, b: 70 },
            text_muted_warm_deep: Color { a: 255, r: 11, g: 91, b: 47 },
            text_muted_warm: Color { a: 255, r: 16, g: 137, b: 70 },
            text_muted_warm_soft: Color { a: 255, r: 21, g: 183, b: 94 },
            text_section_header: Color { a: 255, r: 21, g: 183, b: 94 },
            sidebar_text_primary: Color { a: 255, r: 3, g: 23, b: 12 },
            sidebar_section_header: Color { a: 255, r: 21, g: 183, b: 94 },
            pane_header_bg: Color { a: 255, r: 94, g: 0, b: 128 },
            text_selection_view: Color { a: 255, r: 199, g: 227, b: 247 },
            text_selection_edit: Color { a: 255, r: 196, g: 247, b: 226 },
            bullet_marker: Color { a: 255, r: 16, g: 137, b: 70 },
            text_ghost: Color { a: 255, r: 121, g: 236, b: 159 },
            text_disabled: Color { a: 255, r: 166, g: 242, b: 191 },
            text_ghost_warm: Color { a: 255, r: 166, g: 242, b: 191 },
            link_text: Color { a: 255, r: 24, g: 115, b: 180 },
            poppop_output: Color { a: 255, r: 18, g: 86, b: 135 },
            poppop_comment: Color { a: 255, r: 18, g: 135, b: 71 },
            poppop_error: Color { a: 255, r: 154, g: 30, b: 30 },
            accent_blue: Color { a: 255, r: 31, g: 144, b: 224 },
            accent_blue_selection: Color { a: 64, r: 31, g: 144, b: 224 },
            accent_blue_pane_border: Color { a: 128, r: 31, g: 144, b: 224 },
            accent_blue_focus_edit: Color { a: 255, r: 31, g: 144, b: 224 },
            embed_border: Color { a: 255, r: 24, g: 58, b: 180 },
            embed_tint: Color { a: 12, r: 24, g: 58, b: 180 },
            embed_hover: Color { a: 32, r: 24, g: 58, b: 180 },
            cell_bar_default: Color { a: 72, r: 3, g: 23, b: 12 },
            cell_bar_snoozed: Color { a: 255, r: 216, g: 145, b: 42 },
            cell_bar_resurfaced: Color { a: 255, r: 24, g: 58, b: 180 },
            cell_bar_closed: Color { a: 112, r: 3, g: 23, b: 12 },
            delete_text: Color { a: 255, r: 192, g: 48, b: 48 },
            delete_hover_bg: Color { a: 32, r: 192, g: 48, b: 48 },
            menu_border: Color { a: 255, r: 166, g: 242, b: 191 },
            panel_border_warm: Color { a: 255, r: 165, g: 243, b: 200 },
            divider_pane: Color { a: 255, r: 166, g: 242, b: 191 },
            divider_pane_hover: Color { a: 255, r: 121, g: 236, b: 159 },
            hairline_divider: Color { a: 40, r: 3, g: 23, b: 12 },
            hover_faint: Color { a: 24, r: 3, g: 23, b: 12 },
            button_border_faint: Color { a: 64, r: 3, g: 23, b: 12 },
            toggle_off_bg: Color { a: 96, r: 21, g: 183, b: 94 },
            toggle_inactive_bg: Color { a: 48, r: 11, g: 91, b: 47 },
            heading_rule: Color { a: 128, r: 16, g: 137, b: 70 },
            shadow_soft: Color { a: 48, r: 0, g: 0, b: 0 },
            shadow_menu: Color { a: 64, r: 0, g: 0, b: 0 },
            grid_stripe: Color { a: 255, r: 233, g: 244, b: 252 },
            grid_divider: Color { a: 64, r: 16, g: 137, b: 70 },
            dark_alpha_base: Color { a: 255, r: 3, g: 23, b: 12 },
        }
    }

    /// Gives the role that `key` names its color; another key is ignored.
    pub fn set(&mut self, key: &str, value: Color)
        ensures
            *final(self) == palette_set(*old(self), utf8(key@), value),
    {
        if text::same(key, "bg_page") {
            self.bg_page = value;
        } else if text::same(key, "bg_panel") {
            self.bg_panel = value;
        } else if text::same(key, "bg_card") {
            self.bg_card = value;
        } else if text::same(key, "text_primary") {
            self.text_primary = value;
        } else if text::same(key, "text_menu_row") {
            self.text_menu_row = value;
        } else if text::same(key, "text_muted_grey") {
            self.text_muted_grey = value;
        } else if text::same(key, "text_muted_warm_deep") {
            self.text_muted_warm_deep = value;
        } else if text::same(key, "text_muted_warm") {
            self.text_muted_warm = value;
        } else if text::same(key, "text_muted_warm_soft") {
            self.text_muted_warm_soft = value;
        } else if text::same(key, "text_section_header") {
            self.text_section_header = value;
        } else if text::same(key, "sidebar_text_primary") {
            self.sidebar_text_primary = value;
        } else if text::same(key, "sidebar_section_header") {
            self.sidebar_section_header = value;
        } else if text::same(key, "pane_header_bg") {
            self.pane_header_bg = value;
        } else if text::same(key, "text_selection_view") {
            self.text_selection_view = value;
        } else if text::same(key, "text_selection_edit") {
            self.text_selection_edit = value;
        } else if text::same(key, "bullet_marker") {
            self.bullet_marker = value;
        } else if text::same(key, "text_ghost") {
            self.text_ghost = value;
        } else if text::same(key, "text_disabled") {
            self.text_disabled = value;
        } else if text::same(key, "text_ghost_warm") {
            self.text_ghost_warm = value;
        } else if text::same(key, "link_text") {
            self.link_text = value;
        } else if text::same(key, "poppop_output") {
            self.poppop_output = value;
        } else if text::same(key, "poppop_comment") {
            self.poppop_comment = value;
        } else if text::same(key, "poppop_error") {
            self.poppop_error = value;
        } else if text::same(key, "accent_blue") {
            self.accent_blue = value;
        } else if text::same(key, "accent_blue_selection") {
            self.accent_blue_selection = value;
        } else if text::same(key, "accent_blue_pane_border") {
            self.accent_blue_pane_border = value;
        } else if text::same(key, "accent_blue_focus_edit") {
            self.accent_blue_focus_edit = value;
        } else if text::same(key, "embed_border") {
            self.embed_border = value;
        } else if text::same(key, "embed_tint") {
            self.embed_tint = value;
        } else if text::same(key, "embed_hover") {
            self.embed_hover = value;
        } else if text::same(key, "cell_bar_default") {
            self.cell_bar_default = value;
        } else if text::same(key, "cell_bar_snoozed") {
            self.cell_bar_snoozed = value;
        } else if text::same(key, "cell_bar_resurfaced") {
            self.cell_bar_resurfaced = value;
        } else if text::same(key, "cell_bar_closed") {
            self.cell_bar_closed = value;
        } else if text::same(key, "delete_text") {
            self.delete_text = value;
        } else if text::same(key, "delete_hover_bg") {
            self.delete_hover_bg = value;
        } else if text::same(key, "menu_border") {
            self.menu_border = value;
        } else if text::same(key, "panel_border_warm") {
            self.panel_border_warm = value;
        } else if text::same(key, "divider_pane") {
            self.divider_pane = value;
        } else if text::same(key, "divider_pane_hover") {
            self.divider_pane_hover = value;
        } else if text::same(key, "hairline_divider") {
            self.hairline_divider = value;
        } else if text::same(key, "hover_faint") {
            self.hover_faint = value;
        } else if text::same(key, "button_border_faint") {
            self.button_border_faint = value;
        } else if text::same(key, "toggle_off_bg") {
            self.toggle_off_bg = value;
        } else if text::same(key, "toggle_inactive_bg") {
            self.toggle_inactive_bg = value;
        } else if text::same(key, "heading_rule") {
            self.heading_rule = value;
        } else if text::same(key, "shadow_soft") {
            self.shadow_soft = value;
        } else if text::same(key, "shadow_menu") {
            self.shadow_menu = value;
        } else if text::same(key, "grid_stripe") {
            self.grid_stripe = value;
        } else if text::same(key, "grid_divider") {
            self.grid_divider = value;
        } else if text::same(key, "dark_alpha_base") {
            self.dark_alpha_base = value;
        }
    }
}

fn push_row(out: &mut String, key: &str, c: Color)
    ensures
        utf8(final(out)@) == utf8(old(out)@) + row(key@, c),
{
    let ghost led = utf8(out@);
    let hex = color_to_hex(c);
    text::push_str(out, key);
    text::push_str(out, ": \"");
    text::push_str(out, hex.as_str());
    text::push_str(out, "\"\n");
    assert(utf8(out@) =~= led + row(key@, c));
}

fn push_notes(out: &mut String, p: &Palette)
    ensures
        utf8(final(out)@) == utf8(old(out)@) + notes(*p),
{
    reveal(notes);
    let ghost led = utf8(out@);
    text::push_str(out, "# kept color palette — edit this file and the running app picks up changes\n");
    text::push_str(out, "# within ~250ms. Hex colors: `#rrggbb` (opaque) or `#rrggbbaa` (with alpha).\n");
    text::push_str(out, "# Lines starting with `#` are comments. Blank lines are fine.\n");
    text::push_str(out, "# Unknown keys are warned about on stderr; malformed lines are skipped.\n\n");
    assert(utf8(out@) =~= led + notes(*p));
}

fn push_surface_rows(out: &mut String, p: &Palette)
    ensures
        utf8(final(out)@) == utf8(old(out)@) + surface_rows(*p),
{
    reveal(surface_rows);
    let ghost led = utf8(out@);
    text::push_str(out, "# Page surfaces\n");
    push_row(out, "bg_page", p.bg_page);
    push_row(out, "bg_panel", p.bg_panel);
    push_row(out, "bg_card", p.bg_card);
    assert(utf8(out@) =~= led + surface_rows(*p));
}

fn push_text_rows(out: &mut String, p: &Palette)
    ensures
        utf8(final(out)@) == utf8(old(out)@) + text_rows(*p),
{
    reveal(text_rows);
    let ghost led = utf8(out@);
    text::push_str(out, "\n# Text\n");
    push_row(out, "text_primary", p.text_primary);
    push_row(out, "text_menu_row", p.text_menu_row);
    push_row(out, "text_muted_grey", p.text_muted_grey);
    push_row(out, "text_muted_warm_deep", p.text_muted_warm_deep);
    push_row(out, "text_muted_warm", p.text_muted_warm);
    assert(utf8(out@) =~= led + text_rows(*p));
}

fn push_sidebar_rows(out: &mut String, p: &Palette)
    ensures
        utf8(final(out)@) == utf8(old(out)@) + sidebar_rows(*p),
{
    reveal(sidebar_rows);
    let ghost led = utf8(out@);
    push_row(out, "text_muted_warm_soft", p.text_muted_warm_soft);
    push_row(out, "text_section_header", p.text_section_header);
    push_row(out, "sidebar_text_primary", p.sidebar_text_primary);
    push_row(out, "sidebar_section_header", p.sidebar_section_header);
    push_row(out, "pane_header_bg", p.pane_header_bg);
    push_row(out, "text_selection_view", p.text_selection_view);
    assert(utf8(out@) =~= led + sidebar_rows(*p));
}

fn push_faint_text_rows(out: &mut String, p: &Palette)
    ensures
        utf8(final(out)@) == utf8(old(out)@) + faint_text_rows(*p),
{
    reveal(faint_text_rows);
    let ghost led = utf8(out@);
    push_row(out, "text_selection_edit", p.text_selection_edit);
    push_row(out, "bullet_marker", p.bullet_marker);
    push_row(out, "text_ghost", p.text_ghost);
    push_row(out, "text_disabled", p.text_disabled);
    push_row(out, "text_ghost_warm", p.text_ghost_warm);
    assert(utf8(out@) =~= led + faint_text_rows(*p));
}

fn push_link_rows(out: &mut String, p: &Palette)
    ensures
        utf8(final(out)@) == utf8(old(out)@) + link_rows(*p),
{
    reveal(link_rows);
    let ghost led = utf8(out@);
    text::push_str(out, "\n# Inline links + Pop-Pop\n");
    push_row(out, "link_text", p.link_text);
    push_row(out, "poppop_output", p.poppop_output);
    push_row(out, "poppop_comment", p.poppop_comment);
    push_row(out, "poppop_error", p.poppop_error);
    assert(utf8(out@) =~= led + link_rows(*p));
}

fn push_accent_rows(out: &mut String, p: &Palette)
    ensures
        utf8(final(out)@) == utf8(old(out)@) + accent_rows(*p),
{
    reveal(accent_rows);
    let ghost led = utf8(out@);
    text::push_str(out, "\n# Accent (focus / selection)\n");
    push_row(out, "accent_blue", p.accent_blue);
    push_row(out, "accent_blue_selection", p.accent_blue_selection);
    push_row(out, "accent_blue_pane_border", p.accent_blue_pane_border);
    push_row(out, "accent_blue_focus_edit", p.accent_blue_focus_edit);
    assert(utf8(out@) =~= led + accent_rows(*p));
}

fn push_embed_rows(out: &mut String, p: &Palette)
    ensures
        utf8(final(out)@) == utf8(old(out)@) + embed_rows(*p),
{
    reveal(embed_rows);
    let ghost led = utf8(out@);
    text::push_str(out, "\n# Reference embeds\n");
    push_row(out, "embed_border", p.embed_border);
    push_row(out, "embed_tint", p.embed_tint);
    push_row(out, "embed_hover", p.embed_hover);
    assert(utf8(out@) =~= led + embed_rows(*p));
}

fn push_bar_rows(out: &mut String, p: &Palette)
    ensures
        utf8(final(out)@) == utf8(old(out)@) + bar_rows(*p),
{
    reveal(bar_rows);
    let ghost led = utf8(out@);
    text::push_str(out, "\n# Cell left-edge state bars\n");
    push_row(out, "cell_bar_default", p.cell_bar_default);
    push_row(out, "cell_bar_snoozed", p.cell_bar_snoozed);
    push_row(out, "cell_bar_resurfaced", p.cell_bar_resurfaced);
    push_row(out, "cell_bar_closed", p.cell_bar_closed);
    assert(utf8(out@) =~= led + bar_rows(*p));
}

fn push_delete_rows(out: &mut String, p: &Palette)
    ensures
        utf8(final(out)@) == utf8(old(out)@) + delete_rows(*p),
{
    reveal(delete_rows);
    let ghost led = utf8(out@);
    text::push_str(out, "\n# Destructive\n");
    push_row(out, "delete_text", p.delete_text);
    push_row(out, "delete_hover_bg", p.delete_hover_bg);
    assert(utf8(out@) =~= led + delete_rows(*p));
}

fn push_border_rows(out: &mut String, p: &Palette)
    ensures
        utf8(final(out)@) == utf8(old(out)@) + border_rows(*p),
{
    reveal(border_rows);
    let ghost led = utf8(out@);
    text::push_str(out, "\n# Borders / dividers / hairlines\n");
    push_row(out, "menu_border", p.menu_border);
    push_row(out, "panel_border_warm", p.panel_border_warm);
    push_row(out, "divider_pane", p.divider_pane);
    push_row(out, "divider_pane_hover", p.divider_pane_hover);
    push_row(out, "hairline_divider", p.hairline_divider);
    assert(utf8(out@) =~= led + border_rows(*p));
}

fn push_hover_rows(out: &mut String, p: &Palette)
    ensures
        utf8(final(out)@) == utf8(old(out)@) + hover_rows(*p),
{
    reveal(hover_rows);
    let ghost led = utf8(out@);
    push_row(out, "hover_faint", p.hover_faint);
    push_row(out, "button_border_faint", p.button_border_faint);
    assert(utf8(out@) =~= led + hover_rows(*p));
}

fn push_toggle_rows(out: &mut String, p: &Palette)
    ensures
        utf8(final(out)@) == utf8(old(out)@) + toggle_rows(*p),
{
    reveal(toggle_rows);
    let ghost led = utf8(out@);
    text::push_str(out, "\n# Toggles + heading rule\n");
    push_row(out, "toggle_off_bg", p.toggle_off_bg);
    push_row(out, "toggle_inactive_bg", p.toggle_inactive_bg);
    push_row(out, "heading_rule", p.heading_rule);
    assert(utf8(out@) =~= led + toggle_rows(*p));
}

fn push_shadow_rows(out: &mut String, p: &Palette)
    ensures
        utf8(final(out)@) == utf8(old(out)@) + shadow_rows(*p),
{
    reveal(shadow_rows);
    let ghost led = utf8(out@);
    text::push_str(out, "\n# Drop shadows\n");
    push_row(out, "shadow_soft", p.shadow_soft);
    push_row(out, "shadow_menu", p.shadow_menu);
    assert(utf8(out@) =~= led + shadow_rows(*p));
}

fn push_grid_rows(out: &mut String, p: &Palette)
    ensures
        utf8(final(out)@) == utf8(old(out)@) + grid_rows(*p),
{
    reveal(grid_rows);
    let ghost led = utf8(out@);
    text::push_str(out, "\n# Calc grid (Pop-Pop, Table)\n");
    push_row(out, "grid_stripe", p.grid_stripe);
    push_row(out, "grid_divider", p.grid_divider);
    assert(utf8(out@) =~= led + grid_rows(*p));
}

fn push_dark_rows(out: &mut String, p: &Palette)
    ensures
        utf8(final(out)@) == utf8(old(out)@) + dark_rows(*p),
{
    reveal(dark_rows);
    let ghost led = utf8(out@);
    text::push_str(out, "\n# Base used by the `dark_alpha(a)` runtime composer (cell outline,\n");
    text::push_str(out, "# scrollbar thumb, button background).\n");
    push_row(out, "dark_alpha_base", p.dark_alpha_base);
    assert(utf8(out@) =~= led + dark_rows(*p));
}

impl Palette {
    /// The palette written down.
    pub fn to_yaml(&self) -> (s: String)
        ensures
            utf8(s@) == palette_text(*self),
    {
        let mut out = String::new();
        assert(utf8(out@) =~= Seq::<u8>::empty());
        push_notes(&mut out, self);
        push_surface_rows(&mut out, self);
        push_text_rows(&mut out, self);
        push_sidebar_rows(&mut out, self);
        push_faint_text_rows(&mut out, self);
        push_link_rows(&mut out, self);
        push_accent_rows(&mut out, self);
        push_embed_rows(&mut out, self);
        push_bar_rows(&mut out, self);
        push_delete_rows(&mut out, self);
        push_border_rows(&mut out, self);
        push_hover_rows(&mut out, self);
        push_toggle_rows(&mut out, self);
        push_shadow_rows(&mut out, self);
        push_grid_rows(&mut out, self);
        push_dark_rows(&mut out, self);
        assert(utf8(out@) =~= palette_text(*self));
        out
    }

    /// The palette that the app starts with, written down: what is put where there
    /// is no file yet.
    pub fn defaults_yaml() -> (s: String)
        ensures
            utf8(s@) == palette_text(default_palette()),
    {
        let p = Palette::defaults();
        p.to_yaml()
    }
}

// ---------------------------------------------------------------------------
// Hex colors
// ---------------------------------------------------------------------------

/// The lower-case hexadecimal digit of `n`.
pub open spec fn digit(n: int) -> u8 {
    (if n < 10 {
        48 + n
    } else {
        87 + n
    }) as u8
}

/// A byte as two hexadecimal digits.
pub open spec fn two_digits(x: u8) -> Seq<u8> {
    seq![digit(x as int / 16), digit(x as int % 16)]
}

/// A color as `#rrggbb`, or as `#rrggbbaa` where it is not opaque.
pub open spec fn hex_of(c: Color) -> Seq<u8> {
    let rgb = seq![35u8] + two_digits(c.r) + two_digits(c.g) + two_digits(c.b);
    if c.a == 255 {
        rgb
    } else {
        rgb + two_digits(c.a)
    }
}

/// What a hexadecimal digit stands for, in either letter case.
pub open spec fn digit_value(x: u8) -> Option<int> {
    if 48 <= x <= 57 {
        Some(x - 48)
    } else if 97 <= x <= 102 {
        Some(x - 87)
    } else if 65 <= x <= 70 {
        Some(x - 55)
    } else {
        None
    }
}

/// The byte that the two digits at `i` stand for.
pub open spec fn byte_value(b: Seq<u8>, i: int) -> u8 {
    (digit_value(b[i])->0 * 16 + digit_value(b[i + 1])->0) as u8
}

/// The color that `b` stands for between `lo` and `hi`: `#` and six or eight
/// hexadecimal digits.
pub open spec fn hex_value(b: Seq<u8>, lo: int, hi: int) -> Option<Color> {
    if hi - lo != 7 && hi - lo != 9 || b[lo] != 35 || exists|i: int|
        lo < i < hi && digit_value(#[trigger] b[i]) is None {
        None
    } else {
        Some(
            Color {
                a: if hi - lo == 9 {
                    byte_value(b, lo + 7)
                } else {
                    255
                },
                r: byte_value(b, lo + 1),
                g: byte_value(b, lo + 3),
                b: byte_value(b, lo + 5),
            },
        )
    }
}

/// The part of a text between `lo` and `hi` without the white space around it.
pub open spec fn trimmed(b: Seq<u8>, lo: int, hi: int) -> Span {
    let start = first_solid(b, lo, hi);
    let end = trimmed_end(b, hi);
    Span {
        start,
        end: if end < start {
            start
        } else {
            end
        },
    }
}

/// The color that a text stands for, white space around it aside.
pub open spec fn color_read(b: Seq<u8>, lo: int, hi: int) -> Option<Color> {
    let s = trimmed(b, lo, hi);
    hex_value(b, s.start, s.end)
}

/// The hexadecimal digit of `n`, as a text.
pub fn digit_text(n: u8) -> (s: &'static str)
    requires
        n < 16,
    ensures
        utf8(s@) == seq![digit(n as int)],
{
    let s: &'static str = match n {
        0 => "0",
        1 => "1",
        2 => "2",
        3 => "3",
        4 => "4",
        5 => "5",
        6 => "6",
        7 => "7",
        8 => "8",
        9 => "9",
        10 => "a",
        11 => "b",
        12 => "c",
        13 => "d",
        14 => "e",
        _ => "f",
    };
    proof {
        reveal_strlit("0");
        reveal_strlit("1");
        reveal_strlit("2");
        reveal_strlit("3");
        reveal_strlit("4");
        reveal_strlit("5");
        reveal_strlit("6");
        reveal_strlit("7");
        reveal_strlit("8");
        reveal_strlit("9");
        reveal_strlit("a");
        reveal_strlit("b");
        reveal_strlit("c");
        reveal_strlit("d");
        reveal_strlit("e");
        reveal_strlit("f");
        is_ascii_chars_encode_utf8(s@);
        assert(utf8(s@) =~= seq![digit(n as int)]);
    }
    s
}

fn push_byte(out: &mut String, x: u8)
    ensures
        utf8(final(out)@) == utf8(old(out)@) + two_digits(x),
{
    let ghost led = utf8(out@);
    text::push_str(out, digit_text(x / 16));
    text::push_str(out, digit_text(x % 16));
    assert(utf8(out@) =~= led + two_digits(x));
}

/// A color as `#rrggbb`, or as `#rrggbbaa` where it is not opaque.
pub fn color_to_hex(c: Color) -> (s: String)
    ensures
        utf8(s@) == hex_of(c),
{
    let mut out = text::copy("#");
    proof {
        reveal_strlit("#");
        is_ascii_chars_encode_utf8("#"@);
        assert(utf8("#"@) =~= seq![35u8]);
    }
    push_byte(&mut out, c.r);
    push_byte(&mut out, c.g);
    push_byte(&mut out, c.b);
    if c.a != 255 {
        push_byte(&mut out, c.a);
    }
    out
}

fn value_of(x: u8) -> (v: Option<u8>)
    ensures
        (match v {
            Some(n) => Some(n as int),
            None => None,
        }) == digit_value(x),
        v matches Some(n) ==> n < 16,
{
    if 48 <= x && x <= 57 {
        Some(x - 48)
    } else if 97 <= x && x <= 102 {
        Some(x - 87)
    } else if 65 <= x && x <= 70 {
        Some(x - 55)
    } else {
        None
    }
}

fn byte_read(s: &str, i: usize) -> (x: u8)
    requires
        i + 1 < utf8(s@).len(),
        digit_value(utf8(s@)[i as int]) is Some,
        digit_value(utf8(s@)[i + 1]) is Some,
    ensures
        x == byte_value(utf8(s@), i as int),
{
    let n: usize = text::len(s);
    match (value_of(text::byte_at(s, i)), value_of(text::byte_at(s, i + 1))) {
        (Some(hi), Some(lo)) => hi * 16 + lo,
        _ => 0,
    }
}

fn hex_read(s: &str, lo: usize, hi: usize) -> (c: Option<Color>)
    requires
        lo <= hi <= utf8(s@).len(),
    ensures
        c == hex_value(utf8(s@), lo as int, hi as int),
{
    let ghost b = utf8(s@);
    let n: usize = hi - lo;
    if n != 7 && n != 9 || text::byte_at(s, lo) != 35 {
        return None;
    }
    let mut i: usize = lo + 1;
    while i < hi
        invariant
            lo < i <= hi,
            b == utf8(s@),
            hi <= b.len(),
            forall|k: int| lo < k < i ==> digit_value(#[trigger] b[k]) is Some,
        decreases hi - i,
    {
        if value_of(text::byte_at(s, i)).is_none() {
            assert(digit_value(b[i as int]) is None);
            return None;
        }
        i += 1;
    }
    let a: u8 = if n == 9 {
        byte_read(s, lo + 7)
    } else {
        255
    };
    Some(Color { a, r: byte_read(s, lo + 1), g: byte_read(s, lo + 3), b: byte_read(s, lo + 5) })
}

pub(crate) fn trim(s: &str, lo: usize, hi: usize) -> (r: (usize, usize))
    requires
        lo <= hi <= utf8(s@).len(),
        boundary(utf8(s@), lo as int),
        boundary(utf8(s@), hi as int),
    ensures
        (Span { start: r.0 as int, end: r.1 as int }) == trimmed(utf8(s@), lo as int, hi as int),
        lo <= r.0 <= r.1 <= hi,
        boundary(utf8(s@), r.0 as int),
        boundary(utf8(s@), r.1 as int),
{
    proof {
        lemma_utf8_valid(s@);
        lemma_trimmed_end(utf8(s@), hi as int);
    }
    let start: usize = solid_from(s, lo, hi);
    let end: usize = trim_end_at(s, hi);
    if end < start {
        (start, start)
    } else {
        (start, end)
    }
}

/// The color that a text stands for: `#rrggbb` or `#rrggbbaa`, in either letter
/// case.
pub fn parse_hex_color(s: &str) -> (c: Option<Color>)
    ensures
        c == color_read(utf8(s@), 0, utf8(s@).len() as int),
{
    proof {
        lemma_utf8_valid(s@);
        lemma_boundary_ends(utf8(s@));
    }
    let (lo, hi) = trim(s, 0, text::len(s));
    hex_read(s, lo, hi)
}

proof fn lemma_digit(n: int)
    requires
        0 <= n < 16,
    ensures
        digit_value(digit(n)) == Some(n),
        48 <= digit(n) < 128,
        digit(n) != 35,
{
}

proof fn lemma_byte(x: u8)
    ensures
        digit_value(two_digits(x)[0]) == Some(x as int / 16),
        digit_value(two_digits(x)[1]) == Some(x as int % 16),
        (x as int / 16) * 16 + x as int % 16 == x,
{
    lemma_digit(x as int / 16);
    lemma_digit(x as int % 16);
}

/// A color that is written in hexadecimal and read again is the same.
pub proof fn hex_colors_are_read_back(c: Color)
    ensures
        hex_value(hex_of(c), 0, hex_of(c).len() as int) == Some(c),
{
    let b = hex_of(c);
    lemma_byte(c.r);
    lemma_byte(c.g);
    lemma_byte(c.b);
    lemma_byte(c.a);
    assert(b[1] == two_digits(c.r)[0] && b[2] == two_digits(c.r)[1]);
    assert(b[3] == two_digits(c.g)[0] && b[4] == two_digits(c.g)[1]);
    assert(b[5] == two_digits(c.b)[0] && b[6] == two_digits(c.b)[1]);
    if c.a != 255 {
        assert(b[7] == two_digits(c.a)[0] && b[8] == two_digits(c.a)[1]);
    }
    assert forall|i: int| 0 < i < b.len() implies digit_value(#[trigger] b[i]) is Some by {
        if i == 1 || i == 2 || i == 3 || i == 4 || i == 5 || i == 6 || i == 7 || i == 8 {
        }
    }
}

// ---------------------------------------------------------------------------
// The file
// ---------------------------------------------------------------------------

/// Where a value stands: without its quotes where it has a pair of them, else
/// without the comment behind it.
pub open spec fn value_span(b: Seq<u8>, lo: int, hi: int) -> Span {
    let hash = first_byte(b, 35, lo);
    if lo + 2 <= hi && (b[lo] == 34 && b[hi - 1] == 34 || b[lo] == 39 && b[hi - 1] == 39) {
        Span { start: lo + 1, end: hi - 1 }
    } else if lo < hash < hi {
        trimmed(b, lo, hash)
    } else {
        Span { start: lo, end: hi }
    }
}

/// The key and the color that a line gives; nothing where it is blank, a comment,
/// or cannot be read.
pub open spec fn line_read(b: Seq<u8>, line: Span) -> Option<(Seq<u8>, Color)> {
    let l = trimmed(b, line.start, line.end);
    let colon = first_byte(b, 58, l.start);
    if l.start >= l.end || b[l.start] == 35 || colon >= l.end {
        None
    } else {
        let k = trimmed(b, l.start, colon);
        let raw = trimmed(b, colon + 1, l.end);
        let v = value_span(b, raw.start, raw.end);
        match color_read(b, v.start, v.end) {
            Some(c) => Some((b.subrange(k.start, k.end), c)),
            None => None,
        }
    }
}

/// The palette that the first `n` lines make of the one that the app starts with.
pub open spec fn palette_upto(b: Seq<u8>, lines: Seq<Span>, n: int) -> Palette
    decreases n,
{
    if n <= 0 {
        default_palette()
    } else {
        let before = palette_upto(b, lines, n - 1);
        match line_read(b, lines[n - 1]) {
            Some((key, c)) => palette_set(before, key, c),
            None => before,
        }
    }
}

/// The palette that a file gives.
pub open spec fn palette_read(b: Seq<u8>) -> Palette {
    let lines = text_lines(b, 0);
    palette_upto(b, lines, lines.len() as int)
}

pub(crate) fn value_at(s: &str, lo: usize, hi: usize) -> (r: (usize, usize))
    requires
        lo <= hi <= utf8(s@).len(),
        boundary(utf8(s@), lo as int),
        boundary(utf8(s@), hi as int),
    ensures
        (Span { start: r.0 as int, end: r.1 as int }) == value_span(utf8(s@), lo as int, hi as int),
        lo <= r.0 <= r.1 <= hi,
        boundary(utf8(s@), r.0 as int),
        boundary(utf8(s@), r.1 as int),
{
    let ghost b = utf8(s@);
    let hash: usize = text::find_byte(s, 35, lo);
    proof {
        lemma_utf8_valid(s@);
        lemma_first_byte(b, 35, lo as int);
    }
    if hi - lo >= 2 {
        let x: u8 = text::byte_at(s, lo);
        let y: u8 = text::byte_at(s, hi - 1);
        if x == 34 && y == 34 || x == 39 && y == 39 {
            proof {
                lemma_after_ascii(b, lo as int);
                lemma_ascii_is_boundary(b, hi - 1);
            }
            return (lo + 1, hi - 1);
        }
    }
    if lo < hash && hash < hi {
        proof {
            lemma_ascii_is_boundary(b, hash as int);
        }
        return trim(s, lo, hash);
    }
    (lo, hi)
}

pub(crate) fn read_color(s: &str, lo: usize, hi: usize) -> (c: Option<Color>)
    requires
        lo <= hi <= utf8(s@).len(),
        boundary(utf8(s@), lo as int),
        boundary(utf8(s@), hi as int),
    ensures
        c == color_read(utf8(s@), lo as int, hi as int),
{
    let (p, q) = trim(s, lo, hi);
    hex_read(s, p, q)
}

impl Palette {
    /// The palette that a file gives: the one that the app starts with, with the
    /// colors that are named in it. Lines that cannot be read are skipped; `warnings`
    /// tells of them.
    pub fn from_yaml(s: &str) -> (p: Palette)
        ensures
            p == palette_read(utf8(s@)),
    {
        let ghost b = utf8(s@);
        let lines = split_lines(s);
        let ghost ls = line_spans_of(lines@);
        let mut p = Palette::defaults();
        proof {
            lemma_utf8_valid(s@);
        }
        let mut i: usize = 0;
        while i < lines.len()
            invariant
                i <= lines.len(),
                b == utf8(s@),
                valid_utf8(b),
                ls == line_spans_of(lines@),
                lines_lie(b, ls),
                p == palette_upto(b, ls, i as int),
            decreases lines.len() - i,
        {
            let (start, end) = lines[i];
            let ghost line = ls[i as int];
            assert(line == Span { start: start as int, end: end as int });
            let (lo, hi) = trim(s, start, end);
            if lo < hi && text::byte_at(s, lo) != 35 {
                let colon: usize = text::find_byte(s, 58, lo);
                proof {
                    lemma_first_byte(b, 58, lo as int);
                }
                if colon < hi {
                    proof {
                        lemma_ascii_is_boundary(b, colon as int);
                        lemma_after_ascii(b, colon as int);
                    }
                    let (p0, q0) = trim(s, lo, colon);
                    let (p1, q1) = trim(s, colon + 1, hi);
                    let (v0, v1) = value_at(s, p1, q1);
                    if let Some(c) = read_color(s, v0, v1) {
                        p.set(text::slice(s, p0, q0), c);
                    }
                }
            }
            i += 1;
        }
        p
    }

    /// The accent with a given opacity.
    pub fn accent_blue_alpha(&self, a: u8) -> (c: Color)
        ensures
            c == self.accent_blue.with_alpha(a),
    {
        self.accent_blue.with_alpha(a)
    }

    /// The color of section headers in the sidebar with a given opacity.
    pub fn sidebar_section_header_alpha(&self, a: u8) -> (c: Color)
        ensures
            c == self.sidebar_section_header.with_alpha(a),
    {
        self.sidebar_section_header.with_alpha(a)
    }

    /// The dark base with a given opacity.
    pub fn dark_alpha(&self, a: u8) -> (c: Color)
        ensures
            c == self.dark_alpha_base.with_alpha(a),
    {
        self.dark_alpha_base.with_alpha(a)
    }
}

/// Black with a given opacity.
pub fn black_alpha(a: u8) -> (c: Color)
    ensures
        c == Color::from_argb(a, 0, 0, 0),
{
    Color::from_argb(a, 0, 0, 0)
}

/// How often the file is looked at, in milliseconds.
pub const POLL_MILLIS: u64 = 250;

/// Whether the file is to be looked at again, so long after the last time.
pub fn poll_due(elapsed_millis: u64) -> (r: bool)
    ensures
        r == (elapsed_millis >= POLL_MILLIS),
{
    elapsed_millis >= POLL_MILLIS
}

} // verus!
