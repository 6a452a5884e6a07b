//! The file that a palette is written to, and what is read out of it.
use vstd::prelude::*;
use vstd::utf8::*;

use crate::clipboard::plain::text_lines;
use crate::color::{
    accent_rows, bar_rows, border_rows, dark_rows, default_palette, delete_rows, embed_rows,
    faint_text_rows, grid_rows, hover_rows, link_rows, notes, palette_read, palette_text,
    shadow_rows, sidebar_rows, surface_rows, text_rows, toggle_rows, Palette,
};
use crate::color::reading::{lemma_parts, lemma_through, read_on, stands_at};
use crate::color::sections::{
    lemma_accent_rows, lemma_accent_rows_valid, lemma_bar_rows, lemma_bar_rows_valid,
    lemma_border_rows, lemma_border_rows_valid, lemma_dark_rows, lemma_dark_rows_valid,
    lemma_delete_rows, lemma_delete_rows_valid, lemma_embed_rows, lemma_embed_rows_valid,
    lemma_faint_text_rows, lemma_faint_text_rows_valid, lemma_grid_rows, lemma_grid_rows_valid,
    lemma_hover_rows, lemma_hover_rows_valid, lemma_link_rows, lemma_link_rows_valid, lemma_notes,
    lemma_notes_valid, lemma_shadow_rows, lemma_shadow_rows_valid, lemma_sidebar_rows,
    lemma_sidebar_rows_valid, lemma_surface_rows, lemma_surface_rows_valid, lemma_text_rows,
    lemma_text_rows_valid, lemma_toggle_rows, lemma_toggle_rows_valid,
};

verus! {

pub proof fn lemma_palette_valid(p: Palette)
    ensures
        valid_utf8(palette_text(p)),
{
    lemma_notes_valid(p);
    let s0 = notes(p);
    lemma_surface_rows_valid(p);
    valid_utf8_concat(s0, surface_rows(p));
    let s1 = s0 + surface_rows(p);
    lemma_text_rows_valid(p);
    valid_utf8_concat(s1, text_rows(p));
    let s2 = s1 + text_rows(p);
    lemma_sidebar_rows_valid(p);
    valid_utf8_concat(s2, sidebar_rows(p));
    let s3 = s2 + sidebar_rows(p);
    lemma_faint_text_rows_valid(p);
    valid_utf8_concat(s3, faint_text_rows(p));
    let s4 = s3 + faint_text_rows(p);
    lemma_link_rows_valid(p);
    valid_utf8_concat(s4, link_rows(p));
    let s5 = s4 + link_rows(p);
    lemma_accent_rows_valid(p);
    valid_utf8_concat(s5, accent_rows(p));
    let s6 = s5 + accent_rows(p);
    lemma_embed_rows_valid(p);
    valid_utf8_concat(s6, embed_rows(p));
    let s7 = s6 + embed_rows(p);
    lemma_bar_rows_valid(p);
    valid_utf8_concat(s7, bar_rows(p));
    let s8 = s7 + bar_rows(p);
    lemma_delete_rows_valid(p);
    valid_utf8_concat(s8, delete_rows(p));
    let s9 = s8 + delete_rows(p);
    lemma_border_rows_valid(p);
    valid_utf8_concat(s9, border_rows(p));
    let s10 = s9 + border_rows(p);
    lemma_hover_rows_valid(p);
    valid_utf8_concat(s10, hover_rows(p));
    let s11 = s10 + hover_rows(p);
    lemma_toggle_rows_valid(p);
    valid_utf8_concat(s11, toggle_rows(p));
    let s12 = s11 + toggle_rows(p);
    lemma_shadow_rows_valid(p);
    valid_utf8_concat(s12, shadow_rows(p));
    let s13 = s12 + shadow_rows(p);
    lemma_grid_rows_valid(p);
    valid_utf8_concat(s13, grid_rows(p));
    let s14 = s13 + grid_rows(p);
    lemma_dark_rows_valid(p);
    valid_utf8_concat(s14, dark_rows(p));
    let s15 = s14 + dark_rows(p);
    assert(s15 == palette_text(p));
}

/// A palette that is written to a file is read out of it again, whatever its colors.
pub proof fn palettes_are_read_back(p: Palette)
    ensures
        palette_read(palette_text(p)) == p,
{
    let b = palette_text(p);
    let lines = text_lines(b, 0);
    let q = default_palette();
    lemma_palette_valid(p);
    lemma_through(b, lines, 0);
    assert(lines.subrange(0, lines.len() as int) =~= lines);
    assert(palette_read(b) == read_on(b, 0, q)) by {
        reveal(read_on);
    }
    assert(stands_at(b, 0, b)) by {
        reveal(stands_at);
        assert(b.subrange(0, b.len() as int) =~= b);
    }
    let s0 = notes(p);
    let s1 = s0 + surface_rows(p);
    let s2 = s1 + text_rows(p);
    let s3 = s2 + sidebar_rows(p);
    let s4 = s3 + faint_text_rows(p);
    let s5 = s4 + link_rows(p);
    let s6 = s5 + accent_rows(p);
    let s7 = s6 + embed_rows(p);
    let s8 = s7 + bar_rows(p);
    let s9 = s8 + delete_rows(p);
    let s10 = s9 + border_rows(p);
    let s11 = s10 + hover_rows(p);
    let s12 = s11 + toggle_rows(p);
    let s13 = s12 + shadow_rows(p);
    let s14 = s13 + grid_rows(p);
    let s15 = s14 + dark_rows(p);
    assert(s15 == b);
    lemma_parts(b, 0, s14, dark_rows(p));
    lemma_parts(b, 0, s13, grid_rows(p));
    lemma_parts(b, 0, s12, shadow_rows(p));
    lemma_parts(b, 0, s11, toggle_rows(p));
    lemma_parts(b, 0, s10, hover_rows(p));
    lemma_parts(b, 0, s9, border_rows(p));
    lemma_parts(b, 0, s8, delete_rows(p));
    lemma_parts(b, 0, s7, bar_rows(p));
    lemma_parts(b, 0, s6, embed_rows(p));
    lemma_parts(b, 0, s5, accent_rows(p));
    lemma_parts(b, 0, s4, link_rows(p));
    lemma_parts(b, 0, s3, faint_text_rows(p));
    lemma_parts(b, 0, s2, sidebar_rows(p));
    lemma_parts(b, 0, s1, text_rows(p));
    lemma_parts(b, 0, s0, surface_rows(p));
    lemma_notes(b, 0, p, q);
    lemma_surface_rows(b, s0.len() as int, p, q);
    let q1 = Palette { bg_page: p.bg_page, bg_panel: p.bg_panel, bg_card: p.bg_card, ..q };
    lemma_text_rows(b, s1.len() as int, p, q1);
    let q2 = Palette {
        text_primary: p.text_primary,
        text_menu_row: p.text_menu_row,
        text_muted_grey: p.text_muted_grey,
        text_muted_warm_deep: p.text_muted_warm_deep,
        text_muted_warm: p.text_muted_warm,
        ..q1
    };
    lemma_sidebar_rows(b, s2.len() as int, p, q2);
    let q3 = Palette {
        text_muted_warm_soft: p.text_muted_warm_soft,
        text_section_header: p.text_section_header,
        sidebar_text_primary: p.sidebar_text_primary,
        sidebar_section_header: p.sidebar_section_header,
        pane_header_bg: p.pane_header_bg,
        text_selection_view: p.text_selection_view,
        ..q2
    };
    lemma_faint_text_rows(b, s3.len() as int, p, q3);
    let q4 = Palette {
        text_selection_edit: p.text_selection_edit,
        bullet_marker: p.bullet_marker,
        text_ghost: p.text_ghost,
        text_disabled: p.text_disabled,
        text_ghost_warm: p.text_ghost_warm,
        ..q3
    };
    lemma_link_rows(b, s4.len() as int, p, q4);
    let q5 = Palette {
        link_text: p.link_text,
        poppop_output: p.poppop_output,
        poppop_comment: p.poppop_comment,
        poppop_error: p.poppop_error,
        ..q4
    };
    lemma_accent_rows(b, s5.len() as int, p, q5);
    let q6 = Palette {
        accent_blue: p.accent_blue,
        accent_blue_selection: p.accent_blue_selection,
        accent_blue_pane_border: p.accent_blue_pane_border,
        accent_blue_focus_edit: p.accent_blue_focus_edit,
        ..q5
    };
    lemma_embed_rows(b, s6.len() as int, p, q6);
    let q7 = Palette {
        embed_border: p.embed_border,
        embed_tint: p.embed_tint,
        embed_hover: p.embed_hover,
        ..q6
    };
    lemma_bar_rows(b, s7.len() as int, p, q7);
    let q8 = Palette {
        cell_bar_default: p.cell_bar_default,
        cell_bar_snoozed: p.cell_bar_snoozed,
        cell_bar_resurfaced: p.cell_bar_resurfaced,
        cell_bar_closed: p.cell_bar_closed,
        ..q7
    };
    lemma_delete_rows(b, s8.len() as int, p, q8);
    let q9 = Palette { delete_text: p.delete_text, delete_hover_bg: p.delete_hover_bg, ..q8 };
    lemma_border_rows(b, s9.len() as int, p, q9);
    let q10 = Palette {
        menu_border: p.menu_border,
        panel_border_warm: p.panel_border_warm,
        divider_pane: p.divider_pane,
        divider_pane_hover: p.divider_pane_hover,
        hairline_divider: p.hairline_divider,
        ..q9
    };
    lemma_hover_rows(b, s10.len() as int, p, q10);
    let q11 = Palette {
        hover_faint: p.hover_faint,
        button_border_faint: p.button_border_faint,
        ..q10
    };
    lemma_toggle_rows(b, s11.len() as int, p, q11);
    let q12 = Palette {
        toggle_off_bg: p.toggle_off_bg,
        toggle_inactive_bg: p.toggle_inactive_bg,
        heading_rule: p.heading_rule,
        ..q11
    };
    lemma_shadow_rows(b, s12.len() as int, p, q12);
    let q13 = Palette { shadow_soft: p.shadow_soft, shadow_menu: p.shadow_menu, ..q12 };
    lemma_grid_rows(b, s13.len() as int, p, q13);
    let q14 = Palette { grid_stripe: p.grid_stripe, grid_divider: p.grid_divider, ..q13 };
    lemma_dark_rows(b, s14.len() as int, p, q14);
    let q15 = Palette { dark_alpha_base: p.dark_alpha_base, ..q14 };
    assert(q15 == p);
    assert(read_on(b, b.len() as int, p) == p) by {
        reveal(read_on);
    }
}

} // verus!
