//! The sections of the file that a palette is written to.
use vstd::prelude::*;
use vstd::utf8::*;

use crate::color::{
    accent_rows, bar_rows, border_rows, dark_rows, delete_rows, embed_rows, faint_text_rows,
    grid_rows, hover_rows, link_rows, notes, row, shadow_rows, sidebar_rows, surface_rows,
    text_rows, toggle_rows, Palette,
};
use crate::color::reading::{
    comment, lemma_at, lemma_blank, lemma_comment, lemma_parts, lemma_row, lemma_row_valid,
    read_on, stands_at, unbroken,
};
use crate::color::setting::{
    lemma_set_accent_blue, lemma_set_accent_blue_focus_edit, lemma_set_accent_blue_pane_border,
    lemma_set_accent_blue_selection, lemma_set_bg_card, lemma_set_bg_page, lemma_set_bg_panel,
    lemma_set_bullet_marker, lemma_set_button_border_faint, lemma_set_cell_bar_closed,
    lemma_set_cell_bar_default, lemma_set_cell_bar_resurfaced, lemma_set_cell_bar_snoozed,
    lemma_set_dark_alpha_base, lemma_set_delete_hover_bg, lemma_set_delete_text,
    lemma_set_divider_pane, lemma_set_divider_pane_hover, lemma_set_embed_border,
    lemma_set_embed_hover, lemma_set_embed_tint, lemma_set_grid_divider, lemma_set_grid_stripe,
    lemma_set_hairline_divider, lemma_set_heading_rule, lemma_set_hover_faint, lemma_set_link_text,
    lemma_set_menu_border, lemma_set_pane_header_bg, lemma_set_panel_border_warm,
    lemma_set_poppop_comment, lemma_set_poppop_error, lemma_set_poppop_output,
    lemma_set_shadow_menu, lemma_set_shadow_soft, lemma_set_sidebar_section_header,
    lemma_set_sidebar_text_primary, lemma_set_text_disabled, lemma_set_text_ghost,
    lemma_set_text_ghost_warm, lemma_set_text_menu_row, lemma_set_text_muted_grey,
    lemma_set_text_muted_warm, lemma_set_text_muted_warm_deep, lemma_set_text_muted_warm_soft,
    lemma_set_text_primary, lemma_set_text_section_header, lemma_set_text_selection_edit,
    lemma_set_text_selection_view, lemma_set_toggle_inactive_bg, lemma_set_toggle_off_bg,
};
use crate::text::{lemma_utf8_concat, lemma_utf8_valid, utf8};

verus! {

pub proof fn lemma_notes(b: Seq<u8>, at: int, p: Palette, q: Palette)
    requires
        valid_utf8(b),
        stands_at(b, at, notes(p)),
    ensures
        read_on(b, at, q) == read_on(b, at + notes(p).len(), q),
{
    reveal(notes);
    let s0 = utf8("# kept color palette — edit this file and the running app picks up changes\n"@);
    let s1 = s0 + utf8("# within ~250ms. Hex colors: `#rrggbb` (opaque) or `#rrggbbaa` (with alpha).\n"@);
    let s2 = s1 + utf8("# Lines starting with `#` are comments. Blank lines are fine.\n"@);
    let s3 = s2 + utf8("# Unknown keys are warned about on stderr; malformed lines are skipped.\n\n"@);
    assert(s3 == notes(p));
    lemma_parts(b, at, s2, utf8("# Unknown keys are warned about on stderr; malformed lines are skipped.\n\n"@));
    lemma_parts(b, at, s1, utf8("# Lines starting with `#` are comments. Blank lines are fine.\n"@));
    lemma_parts(b, at, s0, utf8("# within ~250ms. Hex colors: `#rrggbb` (opaque) or `#rrggbbaa` (with alpha).\n"@));
    lemma_literal_notes_0();
    lemma_comment(b, at, "# kept color palette — edit this file and the running app picks up changes\n"@, q);
    lemma_literal_notes_1();
    lemma_comment(b, at + s0.len(), "# within ~250ms. Hex colors: `#rrggbb` (opaque) or `#rrggbbaa` (with alpha).\n"@, q);
    lemma_literal_notes_2();
    lemma_comment(b, at + s1.len(), "# Lines starting with `#` are comments. Blank lines are fine.\n"@, q);
    lemma_literal_notes_3();
    let l3_0 = utf8("# Unknown keys are warned about on stderr; malformed lines are skipped.\n"@);
    let l3_1 = l3_0 + utf8("\n"@);
    assert(utf8("# Unknown keys are warned about on stderr; malformed lines are skipped.\n\n"@) == l3_1);
    lemma_parts(b, at + s2.len(), l3_0, utf8("\n"@));
    lemma_comment(b, at + s2.len(), "# Unknown keys are warned about on stderr; malformed lines are skipped.\n"@, q);
    lemma_at(b, at + s2.len() + l3_0.len(), utf8("\n"@));
    assert(b[at + s2.len() + l3_0.len() + 0] == utf8("\n"@)[0]);
    lemma_blank(b, at + s2.len() + l3_0.len(), q);
}

pub proof fn lemma_literal_notes_0()
    ensures
        comment("# kept color palette — edit this file and the running app picks up changes\n"@),
{
    reveal(comment);
    reveal_strlit("# kept color palette — edit this file and the running app picks up changes\n");
    reveal_with_fuel(unbroken, 9);
    assert(unbroken("# kept color palette — edit this file and the running app picks up changes\n"@, 8));
    assert(unbroken("# kept color palette — edit this file and the running app picks up changes\n"@, 16));
    assert(unbroken("# kept color palette — edit this file and the running app picks up changes\n"@, 24));
    assert(unbroken("# kept color palette — edit this file and the running app picks up changes\n"@, 32));
    assert(unbroken("# kept color palette — edit this file and the running app picks up changes\n"@, 40));
    assert(unbroken("# kept color palette — edit this file and the running app picks up changes\n"@, 48));
    assert(unbroken("# kept color palette — edit this file and the running app picks up changes\n"@, 56));
    assert(unbroken("# kept color palette — edit this file and the running app picks up changes\n"@, 64));
    assert(unbroken("# kept color palette — edit this file and the running app picks up changes\n"@, 72));
}

pub proof fn lemma_literal_notes_1()
    ensures
        comment("# within ~250ms. Hex colors: `#rrggbb` (opaque) or `#rrggbbaa` (with alpha).\n"@),
{
    reveal(comment);
    reveal_strlit("# within ~250ms. Hex colors: `#rrggbb` (opaque) or `#rrggbbaa` (with alpha).\n");
    reveal_with_fuel(unbroken, 9);
    assert(unbroken("# within ~250ms. Hex colors: `#rrggbb` (opaque) or `#rrggbbaa` (with alpha).\n"@, 8));
    assert(unbroken("# within ~250ms. Hex colors: `#rrggbb` (opaque) or `#rrggbbaa` (with alpha).\n"@, 16));
    assert(unbroken("# within ~250ms. Hex colors: `#rrggbb` (opaque) or `#rrggbbaa` (with alpha).\n"@, 24));
    assert(unbroken("# within ~250ms. Hex colors: `#rrggbb` (opaque) or `#rrggbbaa` (with alpha).\n"@, 32));
    assert(unbroken("# within ~250ms. Hex colors: `#rrggbb` (opaque) or `#rrggbbaa` (with alpha).\n"@, 40));
    assert(unbroken("# within ~250ms. Hex colors: `#rrggbb` (opaque) or `#rrggbbaa` (with alpha).\n"@, 48));
    assert(unbroken("# within ~250ms. Hex colors: `#rrggbb` (opaque) or `#rrggbbaa` (with alpha).\n"@, 56));
    assert(unbroken("# within ~250ms. Hex colors: `#rrggbb` (opaque) or `#rrggbbaa` (with alpha).\n"@, 64));
    assert(unbroken("# within ~250ms. Hex colors: `#rrggbb` (opaque) or `#rrggbbaa` (with alpha).\n"@, 72));
}

pub proof fn lemma_literal_notes_2()
    ensures
        comment("# Lines starting with `#` are comments. Blank lines are fine.\n"@),
{
    reveal(comment);
    reveal_strlit("# Lines starting with `#` are comments. Blank lines are fine.\n");
    reveal_with_fuel(unbroken, 9);
    assert(unbroken("# Lines starting with `#` are comments. Blank lines are fine.\n"@, 8));
    assert(unbroken("# Lines starting with `#` are comments. Blank lines are fine.\n"@, 16));
    assert(unbroken("# Lines starting with `#` are comments. Blank lines are fine.\n"@, 24));
    assert(unbroken("# Lines starting with `#` are comments. Blank lines are fine.\n"@, 32));
    assert(unbroken("# Lines starting with `#` are comments. Blank lines are fine.\n"@, 40));
    assert(unbroken("# Lines starting with `#` are comments. Blank lines are fine.\n"@, 48));
    assert(unbroken("# Lines starting with `#` are comments. Blank lines are fine.\n"@, 56));
}

pub proof fn lemma_literal_notes_3()
    ensures
        comment("# Unknown keys are warned about on stderr; malformed lines are skipped.\n"@),
        utf8("\n"@) == seq![10u8],
        utf8("# Unknown keys are warned about on stderr; malformed lines are skipped.\n\n"@) == utf8("# Unknown keys are warned about on stderr; malformed lines are skipped.\n"@) + utf8("\n"@),
{
    reveal(comment);
    reveal_strlit("# Unknown keys are warned about on stderr; malformed lines are skipped.\n");
    reveal_strlit("\n");
    reveal_strlit("# Unknown keys are warned about on stderr; malformed lines are skipped.\n\n");
    reveal_with_fuel(unbroken, 9);
    assert(unbroken("# Unknown keys are warned about on stderr; malformed lines are skipped.\n"@, 8));
    assert(unbroken("# Unknown keys are warned about on stderr; malformed lines are skipped.\n"@, 16));
    assert(unbroken("# Unknown keys are warned about on stderr; malformed lines are skipped.\n"@, 24));
    assert(unbroken("# Unknown keys are warned about on stderr; malformed lines are skipped.\n"@, 32));
    assert(unbroken("# Unknown keys are warned about on stderr; malformed lines are skipped.\n"@, 40));
    assert(unbroken("# Unknown keys are warned about on stderr; malformed lines are skipped.\n"@, 48));
    assert(unbroken("# Unknown keys are warned about on stderr; malformed lines are skipped.\n"@, 56));
    assert(unbroken("# Unknown keys are warned about on stderr; malformed lines are skipped.\n"@, 64));
    is_ascii_chars_encode_utf8("\n"@);
    assert(utf8("\n"@) =~= seq![10u8]);
    assert("# Unknown keys are warned about on stderr; malformed lines are skipped.\n\n"@ =~= "# Unknown keys are warned about on stderr; malformed lines are skipped.\n"@ + "\n"@);
    lemma_utf8_concat("# Unknown keys are warned about on stderr; malformed lines are skipped.\n"@, "\n"@);
}

pub proof fn lemma_notes_valid(p: Palette)
    ensures
        valid_utf8(notes(p)),
{
    reveal(notes);
    lemma_utf8_valid("# kept color palette — edit this file and the running app picks up changes\n"@);
    let s0 = utf8("# kept color palette — edit this file and the running app picks up changes\n"@);
    lemma_utf8_valid("# within ~250ms. Hex colors: `#rrggbb` (opaque) or `#rrggbbaa` (with alpha).\n"@);
    valid_utf8_concat(s0, utf8("# within ~250ms. Hex colors: `#rrggbb` (opaque) or `#rrggbbaa` (with alpha).\n"@));
    let s1 = s0 + utf8("# within ~250ms. Hex colors: `#rrggbb` (opaque) or `#rrggbbaa` (with alpha).\n"@);
    lemma_utf8_valid("# Lines starting with `#` are comments. Blank lines are fine.\n"@);
    valid_utf8_concat(s1, utf8("# Lines starting with `#` are comments. Blank lines are fine.\n"@));
    let s2 = s1 + utf8("# Lines starting with `#` are comments. Blank lines are fine.\n"@);
    lemma_utf8_valid("# Unknown keys are warned about on stderr; malformed lines are skipped.\n\n"@);
    valid_utf8_concat(s2, utf8("# Unknown keys are warned about on stderr; malformed lines are skipped.\n\n"@));
    let s3 = s2 + utf8("# Unknown keys are warned about on stderr; malformed lines are skipped.\n\n"@);
    assert(s3 == notes(p));
}

pub proof fn lemma_surface_rows(b: Seq<u8>, at: int, p: Palette, q: Palette)
    requires
        valid_utf8(b),
        stands_at(b, at, surface_rows(p)),
    ensures
        read_on(b, at, q) == read_on(
            b,
            at + surface_rows(p).len(),
            (Palette {
                bg_page: p.bg_page,
                bg_panel: p.bg_panel,
                bg_card: p.bg_card,
                ..q
            }),
        ),
{
    reveal(surface_rows);
    let s0 = utf8("# Page surfaces\n"@);
    let s1 = s0 + row("bg_page"@, p.bg_page);
    let s2 = s1 + row("bg_panel"@, p.bg_panel);
    let s3 = s2 + row("bg_card"@, p.bg_card);
    assert(s3 == surface_rows(p));
    lemma_parts(b, at, s2, row("bg_card"@, p.bg_card));
    lemma_parts(b, at, s1, row("bg_panel"@, p.bg_panel));
    lemma_parts(b, at, s0, row("bg_page"@, p.bg_page));
    lemma_literal_surface_rows_0();
    lemma_comment(b, at, "# Page surfaces\n"@, q);
    lemma_set_bg_page(q, p.bg_page);
    lemma_row(b, at + s0.len(), "bg_page"@, 108473, p.bg_page, q);
    let q1 = Palette { bg_page: p.bg_page, ..q };
    lemma_set_bg_panel(q1, p.bg_panel);
    lemma_row(b, at + s1.len(), "bg_panel"@, 325590, p.bg_panel, q1);
    let q2 = Palette { bg_panel: p.bg_panel, ..q1 };
    lemma_set_bg_card(q2, p.bg_card);
    lemma_row(b, at + s2.len(), "bg_card"@, 108154, p.bg_card, q2);
    let q3 = Palette { bg_card: p.bg_card, ..q2 };
}

pub proof fn lemma_literal_surface_rows_0()
    ensures
        comment("# Page surfaces\n"@),
{
    reveal(comment);
    reveal_strlit("# Page surfaces\n");
    reveal_with_fuel(unbroken, 9);
    assert(unbroken("# Page surfaces\n"@, 8));
}

pub proof fn lemma_surface_rows_valid(p: Palette)
    ensures
        valid_utf8(surface_rows(p)),
{
    reveal(surface_rows);
    lemma_utf8_valid("# Page surfaces\n"@);
    let s0 = utf8("# Page surfaces\n"@);
    lemma_row_valid("bg_page"@, p.bg_page);
    valid_utf8_concat(s0, row("bg_page"@, p.bg_page));
    let s1 = s0 + row("bg_page"@, p.bg_page);
    lemma_row_valid("bg_panel"@, p.bg_panel);
    valid_utf8_concat(s1, row("bg_panel"@, p.bg_panel));
    let s2 = s1 + row("bg_panel"@, p.bg_panel);
    lemma_row_valid("bg_card"@, p.bg_card);
    valid_utf8_concat(s2, row("bg_card"@, p.bg_card));
    let s3 = s2 + row("bg_card"@, p.bg_card);
    assert(s3 == surface_rows(p));
}

pub proof fn lemma_text_rows(b: Seq<u8>, at: int, p: Palette, q: Palette)
    requires
        valid_utf8(b),
        stands_at(b, at, text_rows(p)),
    ensures
        read_on(b, at, q) == read_on(
            b,
            at + text_rows(p).len(),
            (Palette {
                text_primary: p.text_primary,
                text_menu_row: p.text_menu_row,
                text_muted_grey: p.text_muted_grey,
                text_muted_warm_deep: p.text_muted_warm_deep,
                text_muted_warm: p.text_muted_warm,
                ..q
            }),
        ),
{
    reveal(text_rows);
    let s0 = utf8("\n# Text\n"@);
    let s1 = s0 + row("text_primary"@, p.text_primary);
    let s2 = s1 + row("text_menu_row"@, p.text_menu_row);
    let s3 = s2 + row("text_muted_grey"@, p.text_muted_grey);
    let s4 = s3 + row("text_muted_warm_deep"@, p.text_muted_warm_deep);
    let s5 = s4 + row("text_muted_warm"@, p.text_muted_warm);
    assert(s5 == text_rows(p));
    lemma_parts(b, at, s4, row("text_muted_warm"@, p.text_muted_warm));
    lemma_parts(b, at, s3, row("text_muted_warm_deep"@, p.text_muted_warm_deep));
    lemma_parts(b, at, s2, row("text_muted_grey"@, p.text_muted_grey));
    lemma_parts(b, at, s1, row("text_menu_row"@, p.text_menu_row));
    lemma_parts(b, at, s0, row("text_primary"@, p.text_primary));
    lemma_literal_text_rows_0();
    let l0_0 = utf8("\n"@);
    let l0_1 = l0_0 + utf8("# Text\n"@);
    assert(utf8("\n# Text\n"@) == l0_1);
    lemma_parts(b, at, l0_0, utf8("# Text\n"@));
    lemma_at(b, at, utf8("\n"@));
    assert(b[at + 0] == utf8("\n"@)[0]);
    lemma_blank(b, at, q);
    lemma_comment(b, at + l0_0.len(), "# Text\n"@, q);
    lemma_set_text_primary(q, p.text_primary);
    lemma_row(b, at + s0.len(), "text_primary"@, 29965936, p.text_primary, q);
    let q1 = Palette { text_primary: p.text_primary, ..q };
    lemma_set_text_menu_row(q1, p.text_menu_row);
    lemma_row(b, at + s1.len(), "text_menu_row"@, 89883668, p.text_menu_row, q1);
    let q2 = Palette { text_menu_row: p.text_menu_row, ..q1 };
    lemma_set_text_muted_grey(q2, p.text_muted_grey);
    lemma_row(b, at + s2.len(), "text_muted_grey"@, 809059285, p.text_muted_grey, q2);
    let q3 = Palette { text_muted_grey: p.text_muted_grey, ..q2 };
    lemma_set_text_muted_warm_deep(q3, p.text_muted_warm_deep);
    lemma_row(b, at + s3.len(), "text_muted_warm_deep"@, 196601492332, p.text_muted_warm_deep, q3);
    let q4 = Palette { text_muted_warm_deep: p.text_muted_warm_deep, ..q3 };
    lemma_set_text_muted_warm(q4, p.text_muted_warm);
    lemma_row(b, at + s4.len(), "text_muted_warm"@, 809059591, p.text_muted_warm, q4);
    let q5 = Palette { text_muted_warm: p.text_muted_warm, ..q4 };
}

pub proof fn lemma_literal_text_rows_0()
    ensures
        utf8("\n"@) == seq![10u8],
        comment("# Text\n"@),
        utf8("\n# Text\n"@) == utf8("\n"@) + utf8("# Text\n"@),
{
    reveal(comment);
    reveal_strlit("\n");
    reveal_strlit("# Text\n");
    reveal_strlit("\n# Text\n");
    reveal_with_fuel(unbroken, 9);
    is_ascii_chars_encode_utf8("\n"@);
    assert(utf8("\n"@) =~= seq![10u8]);
    assert("\n# Text\n"@ =~= "\n"@ + "# Text\n"@);
    lemma_utf8_concat("\n"@, "# Text\n"@);
}

pub proof fn lemma_text_rows_valid(p: Palette)
    ensures
        valid_utf8(text_rows(p)),
{
    reveal(text_rows);
    lemma_utf8_valid("\n# Text\n"@);
    let s0 = utf8("\n# Text\n"@);
    lemma_row_valid("text_primary"@, p.text_primary);
    valid_utf8_concat(s0, row("text_primary"@, p.text_primary));
    let s1 = s0 + row("text_primary"@, p.text_primary);
    lemma_row_valid("text_menu_row"@, p.text_menu_row);
    valid_utf8_concat(s1, row("text_menu_row"@, p.text_menu_row));
    let s2 = s1 + row("text_menu_row"@, p.text_menu_row);
    lemma_row_valid("text_muted_grey"@, p.text_muted_grey);
    valid_utf8_concat(s2, row("text_muted_grey"@, p.text_muted_grey));
    let s3 = s2 + row("text_muted_grey"@, p.text_muted_grey);
    lemma_row_valid("text_muted_warm_deep"@, p.text_muted_warm_deep);
    valid_utf8_concat(s3, row("text_muted_warm_deep"@, p.text_muted_warm_deep));
    let s4 = s3 + row("text_muted_warm_deep"@, p.text_muted_warm_deep);
    lemma_row_valid("text_muted_warm"@, p.text_muted_warm);
    valid_utf8_concat(s4, row("text_muted_warm"@, p.text_muted_warm));
    let s5 = s4 + row("text_muted_warm"@, p.text_muted_warm);
    assert(s5 == text_rows(p));
}

pub proof fn lemma_sidebar_rows(b: Seq<u8>, at: int, p: Palette, q: Palette)
    requires
        valid_utf8(b),
        stands_at(b, at, sidebar_rows(p)),
    ensures
        read_on(b, at, q) == read_on(
            b,
            at + sidebar_rows(p).len(),
            (Palette {
                text_muted_warm_soft: p.text_muted_warm_soft,
                text_section_header: p.text_section_header,
                sidebar_text_primary: p.sidebar_text_primary,
                sidebar_section_header: p.sidebar_section_header,
                pane_header_bg: p.pane_header_bg,
                text_selection_view: p.text_selection_view,
                ..q
            }),
        ),
{
    reveal(sidebar_rows);
    let s0 = row("text_muted_warm_soft"@, p.text_muted_warm_soft);
    let s1 = s0 + row("text_section_header"@, p.text_section_header);
    let s2 = s1 + row("sidebar_text_primary"@, p.sidebar_text_primary);
    let s3 = s2 + row("sidebar_section_header"@, p.sidebar_section_header);
    let s4 = s3 + row("pane_header_bg"@, p.pane_header_bg);
    let s5 = s4 + row("text_selection_view"@, p.text_selection_view);
    assert(s5 == sidebar_rows(p));
    lemma_parts(b, at, s4, row("text_selection_view"@, p.text_selection_view));
    lemma_parts(b, at, s3, row("pane_header_bg"@, p.pane_header_bg));
    lemma_parts(b, at, s2, row("sidebar_section_header"@, p.sidebar_section_header));
    lemma_parts(b, at, s1, row("sidebar_text_primary"@, p.sidebar_text_primary));
    lemma_parts(b, at, s0, row("text_section_header"@, p.text_section_header));
    lemma_set_text_muted_warm_soft(q, p.text_muted_warm_soft);
    lemma_row(b, at, "text_muted_warm_soft"@, 196601492834, p.text_muted_warm_soft, q);
    let q0 = Palette { text_muted_warm_soft: p.text_muted_warm_soft, ..q };
    lemma_set_text_section_header(q0, p.text_section_header);
    lemma_row(b, at + s0.len(), "text_section_header"@, 65532947097, p.text_section_header, q0);
    let q1 = Palette { text_section_header: p.text_section_header, ..q0 };
    lemma_set_sidebar_text_primary(q1, p.sidebar_text_primary);
    lemma_row(b, at + s1.len(), "sidebar_text_primary"@, 193733301703, p.sidebar_text_primary, q1);
    let q2 = Palette { sidebar_text_primary: p.sidebar_text_primary, ..q1 };
    lemma_set_sidebar_section_header(q2, p.sidebar_section_header);
    lemma_row(b, at + s2.len(), "sidebar_section_header"@, 1743594574026, p.sidebar_section_header, q2);
    let q3 = Palette { sidebar_section_header: p.sidebar_section_header, ..q2 };
    lemma_set_pane_header_bg(q3, p.pane_header_bg);
    lemma_row(b, at + s3.len(), "pane_header_bg"@, 258444712, p.pane_header_bg, q3);
    let q4 = Palette { pane_header_bg: p.pane_header_bg, ..q3 };
    lemma_set_text_selection_view(q4, p.text_selection_view);
    lemma_row(b, at + s4.len(), "text_selection_view"@, 65533572710, p.text_selection_view, q4);
    let q5 = Palette { text_selection_view: p.text_selection_view, ..q4 };
}

pub proof fn lemma_sidebar_rows_valid(p: Palette)
    ensures
        valid_utf8(sidebar_rows(p)),
{
    reveal(sidebar_rows);
    lemma_row_valid("text_muted_warm_soft"@, p.text_muted_warm_soft);
    let s0 = row("text_muted_warm_soft"@, p.text_muted_warm_soft);
    lemma_row_valid("text_section_header"@, p.text_section_header);
    valid_utf8_concat(s0, row("text_section_header"@, p.text_section_header));
    let s1 = s0 + row("text_section_header"@, p.text_section_header);
    lemma_row_valid("sidebar_text_primary"@, p.sidebar_text_primary);
    valid_utf8_concat(s1, row("sidebar_text_primary"@, p.sidebar_text_primary));
    let s2 = s1 + row("sidebar_text_primary"@, p.sidebar_text_primary);
    lemma_row_valid("sidebar_section_header"@, p.sidebar_section_header);
    valid_utf8_concat(s2, row("sidebar_section_header"@, p.sidebar_section_header));
    let s3 = s2 + row("sidebar_section_header"@, p.sidebar_section_header);
    lemma_row_valid("pane_header_bg"@, p.pane_header_bg);
    valid_utf8_concat(s3, row("pane_header_bg"@, p.pane_header_bg));
    let s4 = s3 + row("pane_header_bg"@, p.pane_header_bg);
    lemma_row_valid("text_selection_view"@, p.text_selection_view);
    valid_utf8_concat(s4, row("text_selection_view"@, p.text_selection_view));
    let s5 = s4 + row("text_selection_view"@, p.text_selection_view);
    assert(s5 == sidebar_rows(p));
}

pub proof fn lemma_faint_text_rows(b: Seq<u8>, at: int, p: Palette, q: Palette)
    requires
        valid_utf8(b),
        stands_at(b, at, faint_text_rows(p)),
    ensures
        read_on(b, at, q) == read_on(
            b,
            at + faint_text_rows(p).len(),
            (Palette {
                text_selection_edit: p.text_selection_edit,
                bullet_marker: p.bullet_marker,
                text_ghost: p.text_ghost,
                text_disabled: p.text_disabled,
                text_ghost_warm: p.text_ghost_warm,
                ..q
            }),
        ),
{
    reveal(faint_text_rows);
    let s0 = row("text_selection_edit"@, p.text_selection_edit);
    let s1 = s0 + row("bullet_marker"@, p.bullet_marker);
    let s2 = s1 + row("text_ghost"@, p.text_ghost);
    let s3 = s2 + row("text_disabled"@, p.text_disabled);
    let s4 = s3 + row("text_ghost_warm"@, p.text_ghost_warm);
    assert(s4 == faint_text_rows(p));
    lemma_parts(b, at, s3, row("text_ghost_warm"@, p.text_ghost_warm));
    lemma_parts(b, at, s2, row("text_disabled"@, p.text_disabled));
    lemma_parts(b, at, s1, row("text_ghost"@, p.text_ghost));
    lemma_parts(b, at, s0, row("bullet_marker"@, p.bullet_marker));
    lemma_set_text_selection_edit(q, p.text_selection_edit);
    lemma_row(b, at, "text_selection_edit"@, 65533572215, p.text_selection_edit, q);
    let q0 = Palette { text_selection_edit: p.text_selection_edit, ..q };
    lemma_set_bullet_marker(q0, p.bullet_marker);
    lemma_row(b, at + s0.len(), "bullet_marker"@, 82334883, p.bullet_marker, q0);
    let q1 = Palette { bullet_marker: p.bullet_marker, ..q0 };
    lemma_set_text_ghost(q1, p.text_ghost);
    lemma_row(b, at + s1.len(), "text_ghost"@, 3328589, p.text_ghost, q1);
    let q2 = Palette { text_ghost: p.text_ghost, ..q1 };
    lemma_set_text_disabled(q2, p.text_disabled);
    lemma_row(b, at + s2.len(), "text_disabled"@, 89866474, p.text_disabled, q2);
    let q3 = Palette { text_disabled: p.text_disabled, ..q2 };
    lemma_set_text_ghost_warm(q3, p.text_ghost_warm);
    lemma_row(b, at + s3.len(), "text_ghost_warm"@, 808859359, p.text_ghost_warm, q3);
    let q4 = Palette { text_ghost_warm: p.text_ghost_warm, ..q3 };
}

pub proof fn lemma_faint_text_rows_valid(p: Palette)
    ensures
        valid_utf8(faint_text_rows(p)),
{
    reveal(faint_text_rows);
    lemma_row_valid("text_selection_edit"@, p.text_selection_edit);
    let s0 = row("text_selection_edit"@, p.text_selection_edit);
    lemma_row_valid("bullet_marker"@, p.bullet_marker);
    valid_utf8_concat(s0, row("bullet_marker"@, p.bullet_marker));
    let s1 = s0 + row("bullet_marker"@, p.bullet_marker);
    lemma_row_valid("text_ghost"@, p.text_ghost);
    valid_utf8_concat(s1, row("text_ghost"@, p.text_ghost));
    let s2 = s1 + row("text_ghost"@, p.text_ghost);
    lemma_row_valid("text_disabled"@, p.text_disabled);
    valid_utf8_concat(s2, row("text_disabled"@, p.text_disabled));
    let s3 = s2 + row("text_disabled"@, p.text_disabled);
    lemma_row_valid("text_ghost_warm"@, p.text_ghost_warm);
    valid_utf8_concat(s3, row("text_ghost_warm"@, p.text_ghost_warm));
    let s4 = s3 + row("text_ghost_warm"@, p.text_ghost_warm);
    assert(s4 == faint_text_rows(p));
}

pub proof fn lemma_link_rows(b: Seq<u8>, at: int, p: Palette, q: Palette)
    requires
        valid_utf8(b),
        stands_at(b, at, link_rows(p)),
    ensures
        read_on(b, at, q) == read_on(
            b,
            at + link_rows(p).len(),
            (Palette {
                link_text: p.link_text,
                poppop_output: p.poppop_output,
                poppop_comment: p.poppop_comment,
                poppop_error: p.poppop_error,
                ..q
            }),
        ),
{
    reveal(link_rows);
    let s0 = utf8("\n# Inline links + Pop-Pop\n"@);
    let s1 = s0 + row("link_text"@, p.link_text);
    let s2 = s1 + row("poppop_output"@, p.poppop_output);
    let s3 = s2 + row("poppop_comment"@, p.poppop_comment);
    let s4 = s3 + row("poppop_error"@, p.poppop_error);
    assert(s4 == link_rows(p));
    lemma_parts(b, at, s3, row("poppop_error"@, p.poppop_error));
    lemma_parts(b, at, s2, row("poppop_comment"@, p.poppop_comment));
    lemma_parts(b, at, s1, row("poppop_output"@, p.poppop_output));
    lemma_parts(b, at, s0, row("link_text"@, p.link_text));
    lemma_literal_link_rows_0();
    let l0_0 = utf8("\n"@);
    let l0_1 = l0_0 + utf8("# Inline links + Pop-Pop\n"@);
    assert(utf8("\n# Inline links + Pop-Pop\n"@) == l0_1);
    lemma_parts(b, at, l0_0, utf8("# Inline links + Pop-Pop\n"@));
    lemma_at(b, at, utf8("\n"@));
    assert(b[at + 0] == utf8("\n"@)[0]);
    lemma_blank(b, at, q);
    lemma_comment(b, at + l0_0.len(), "# Inline links + Pop-Pop\n"@, q);
    lemma_set_link_text(q, p.link_text);
    lemma_row(b, at + s0.len(), "link_text"@, 1056626, p.link_text, q);
    let q1 = Palette { link_text: p.link_text, ..q };
    lemma_set_poppop_output(q1, p.poppop_output);
    lemma_row(b, at + s1.len(), "poppop_output"@, 89086220, p.poppop_output, q1);
    let q2 = Palette { poppop_output: p.poppop_output, ..q1 };
    lemma_set_poppop_comment(q2, p.poppop_comment);
    lemma_row(b, at + s2.len(), "poppop_comment"@, 267247760, p.poppop_comment, q2);
    let q3 = Palette { poppop_comment: p.poppop_comment, ..q2 };
    lemma_set_poppop_error(q3, p.poppop_error);
    lemma_row(b, at + s3.len(), "poppop_error"@, 29694453, p.poppop_error, q3);
    let q4 = Palette { poppop_error: p.poppop_error, ..q3 };
}

pub proof fn lemma_literal_link_rows_0()
    ensures
        utf8("\n"@) == seq![10u8],
        comment("# Inline links + Pop-Pop\n"@),
        utf8("\n# Inline links + Pop-Pop\n"@) == utf8("\n"@) + utf8("# Inline links + Pop-Pop\n"@),
{
    reveal(comment);
    reveal_strlit("\n");
    reveal_strlit("# Inline links + Pop-Pop\n");
    reveal_strlit("\n# Inline links + Pop-Pop\n");
    reveal_with_fuel(unbroken, 9);
    assert(unbroken("# Inline links + Pop-Pop\n"@, 8));
    assert(unbroken("# Inline links + Pop-Pop\n"@, 16));
    is_ascii_chars_encode_utf8("\n"@);
    assert(utf8("\n"@) =~= seq![10u8]);
    assert("\n# Inline links + Pop-Pop\n"@ =~= "\n"@ + "# Inline links + Pop-Pop\n"@);
    lemma_utf8_concat("\n"@, "# Inline links + Pop-Pop\n"@);
}

pub proof fn lemma_link_rows_valid(p: Palette)
    ensures
        valid_utf8(link_rows(p)),
{
    reveal(link_rows);
    lemma_utf8_valid("\n# Inline links + Pop-Pop\n"@);
    let s0 = utf8("\n# Inline links + Pop-Pop\n"@);
    lemma_row_valid("link_text"@, p.link_text);
    valid_utf8_concat(s0, row("link_text"@, p.link_text));
    let s1 = s0 + row("link_text"@, p.link_text);
    lemma_row_valid("poppop_output"@, p.poppop_output);
    valid_utf8_concat(s1, row("poppop_output"@, p.poppop_output));
    let s2 = s1 + row("poppop_output"@, p.poppop_output);
    lemma_row_valid("poppop_comment"@, p.poppop_comment);
    valid_utf8_concat(s2, row("poppop_comment"@, p.poppop_comment));
    let s3 = s2 + row("poppop_comment"@, p.poppop_comment);
    lemma_row_valid("poppop_error"@, p.poppop_error);
    valid_utf8_concat(s3, row("poppop_error"@, p.poppop_error));
    let s4 = s3 + row("poppop_error"@, p.poppop_error);
    assert(s4 == link_rows(p));
}

pub proof fn lemma_accent_rows(b: Seq<u8>, at: int, p: Palette, q: Palette)
    requires
        valid_utf8(b),
        stands_at(b, at, accent_rows(p)),
    ensures
        read_on(b, at, q) == read_on(
            b,
            at + accent_rows(p).len(),
            (Palette {
                accent_blue: p.accent_blue,
                accent_blue_selection: p.accent_blue_selection,
                accent_blue_pane_border: p.accent_blue_pane_border,
                accent_blue_focus_edit: p.accent_blue_focus_edit,
                ..q
            }),
        ),
{
    reveal(accent_rows);
    let s0 = utf8("\n# Accent (focus / selection)\n"@);
    let s1 = s0 + row("accent_blue"@, p.accent_blue);
    let s2 = s1 + row("accent_blue_selection"@, p.accent_blue_selection);
    let s3 = s2 + row("accent_blue_pane_border"@, p.accent_blue_pane_border);
    let s4 = s3 + row("accent_blue_focus_edit"@, p.accent_blue_focus_edit);
    assert(s4 == accent_rows(p));
    lemma_parts(b, at, s3, row("accent_blue_focus_edit"@, p.accent_blue_focus_edit));
    lemma_parts(b, at, s2, row("accent_blue_pane_border"@, p.accent_blue_pane_border));
    lemma_parts(b, at, s1, row("accent_blue_selection"@, p.accent_blue_selection));
    lemma_parts(b, at, s0, row("accent_blue"@, p.accent_blue));
    lemma_literal_accent_rows_0();
    let l0_0 = utf8("\n"@);
    let l0_1 = l0_0 + utf8("# Accent (focus / selection)\n"@);
    assert(utf8("\n# Accent (focus / selection)\n"@) == l0_1);
    lemma_parts(b, at, l0_0, utf8("# Accent (focus / selection)\n"@));
    lemma_at(b, at, utf8("\n"@));
    assert(b[at + 0] == utf8("\n"@)[0]);
    lemma_blank(b, at, q);
    lemma_comment(b, at + l0_0.len(), "# Accent (focus / selection)\n"@, q);
    lemma_set_accent_blue(q, p.accent_blue);
    lemma_row(b, at + s0.len(), "accent_blue"@, 8666939, p.accent_blue, q);
    let q1 = Palette { accent_blue: p.accent_blue, ..q };
    lemma_set_accent_blue_selection(q1, p.accent_blue_selection);
    lemma_row(b, at + s1.len(), "accent_blue_selection"@, 511777042112, p.accent_blue_selection, q1);
    let q2 = Palette { accent_blue_selection: p.accent_blue_selection, ..q1 };
    lemma_set_accent_blue_pane_border(q2, p.accent_blue_pane_border);
    lemma_row(b, at + s2.len(), "accent_blue_pane_border"@, 4605993129855, p.accent_blue_pane_border, q2);
    let q3 = Palette { accent_blue_pane_border: p.accent_blue_pane_border, ..q2 };
    lemma_set_accent_blue_focus_edit(q3, p.accent_blue_focus_edit);
    lemma_row(b, at + s3.len(), "accent_blue_focus_edit"@, 1535330930129, p.accent_blue_focus_edit, q3);
    let q4 = Palette { accent_blue_focus_edit: p.accent_blue_focus_edit, ..q3 };
}

pub proof fn lemma_literal_accent_rows_0()
    ensures
        utf8("\n"@) == seq![10u8],
        comment("# Accent (focus / selection)\n"@),
        utf8("\n# Accent (focus / selection)\n"@) == utf8("\n"@) + utf8("# Accent (focus / selection)\n"@),
{
    reveal(comment);
    reveal_strlit("\n");
    reveal_strlit("# Accent (focus / selection)\n");
    reveal_strlit("\n# Accent (focus / selection)\n");
    reveal_with_fuel(unbroken, 9);
    assert(unbroken("# Accent (focus / selection)\n"@, 8));
    assert(unbroken("# Accent (focus / selection)\n"@, 16));
    assert(unbroken("# Accent (focus / selection)\n"@, 24));
    is_ascii_chars_encode_utf8("\n"@);
    assert(utf8("\n"@) =~= seq![10u8]);
    assert("\n# Accent (focus / selection)\n"@ =~= "\n"@ + "# Accent (focus / selection)\n"@);
    lemma_utf8_concat("\n"@, "# Accent (focus / selection)\n"@);
}

pub proof fn lemma_accent_rows_valid(p: Palette)
    ensures
        valid_utf8(accent_rows(p)),
{
    reveal(accent_rows);
    lemma_utf8_valid("\n# Accent (focus / selection)\n"@);
    let s0 = utf8("\n# Accent (focus / selection)\n"@);
    lemma_row_valid("accent_blue"@, p.accent_blue);
    valid_utf8_concat(s0, row("accent_blue"@, p.accent_blue));
    let s1 = s0 + row("accent_blue"@, p.accent_blue);
    lemma_row_valid("accent_blue_selection"@, p.accent_blue_selection);
    valid_utf8_concat(s1, row("accent_blue_selection"@, p.accent_blue_selection));
    let s2 = s1 + row("accent_blue_selection"@, p.accent_blue_selection);
    lemma_row_valid("accent_blue_pane_border"@, p.accent_blue_pane_border);
    valid_utf8_concat(s2, row("accent_blue_pane_border"@, p.accent_blue_pane_border));
    let s3 = s2 + row("accent_blue_pane_border"@, p.accent_blue_pane_border);
    lemma_row_valid("accent_blue_focus_edit"@, p.accent_blue_focus_edit);
    valid_utf8_concat(s3, row("accent_blue_focus_edit"@, p.accent_blue_focus_edit));
    let s4 = s3 + row("accent_blue_focus_edit"@, p.accent_blue_focus_edit);
    assert(s4 == accent_rows(p));
}

pub proof fn lemma_embed_rows(b: Seq<u8>, at: int, p: Palette, q: Palette)
    requires
        valid_utf8(b),
        stands_at(b, at, embed_rows(p)),
    ensures
        read_on(b, at, q) == read_on(
            b,
            at + embed_rows(p).len(),
            (Palette {
                embed_border: p.embed_border,
                embed_tint: p.embed_tint,
                embed_hover: p.embed_hover,
                ..q
            }),
        ),
{
    reveal(embed_rows);
    let s0 = utf8("\n# Reference embeds\n"@);
    let s1 = s0 + row("embed_border"@, p.embed_border);
    let s2 = s1 + row("embed_tint"@, p.embed_tint);
    let s3 = s2 + row("embed_hover"@, p.embed_hover);
    assert(s3 == embed_rows(p));
    lemma_parts(b, at, s2, row("embed_hover"@, p.embed_hover));
    lemma_parts(b, at, s1, row("embed_tint"@, p.embed_tint));
    lemma_parts(b, at, s0, row("embed_border"@, p.embed_border));
    lemma_literal_embed_rows_0();
    let l0_0 = utf8("\n"@);
    let l0_1 = l0_0 + utf8("# Reference embeds\n"@);
    assert(utf8("\n# Reference embeds\n"@) == l0_1);
    lemma_parts(b, at, l0_0, utf8("# Reference embeds\n"@));
    lemma_at(b, at, utf8("\n"@));
    assert(b[at + 0] == utf8("\n"@)[0]);
    lemma_blank(b, at, q);
    lemma_comment(b, at + l0_0.len(), "# Reference embeds\n"@, q);
    lemma_set_embed_border(q, p.embed_border);
    lemma_row(b, at + s0.len(), "embed_border"@, 27244938, p.embed_border, q);
    let q1 = Palette { embed_border: p.embed_border, ..q };
    lemma_set_embed_tint(q1, p.embed_tint);
    lemma_row(b, at + s1.len(), "embed_tint"@, 3027605, p.embed_tint, q1);
    let q2 = Palette { embed_tint: p.embed_tint, ..q1 };
    lemma_set_embed_hover(q2, p.embed_hover);
    lemma_row(b, at + s2.len(), "embed_hover"@, 9082146, p.embed_hover, q2);
    let q3 = Palette { embed_hover: p.embed_hover, ..q2 };
}

pub proof fn lemma_literal_embed_rows_0()
    ensures
        utf8("\n"@) == seq![10u8],
        comment("# Reference embeds\n"@),
        utf8("\n# Reference embeds\n"@) == utf8("\n"@) + utf8("# Reference embeds\n"@),
{
    reveal(comment);
    reveal_strlit("\n");
    reveal_strlit("# Reference embeds\n");
    reveal_strlit("\n# Reference embeds\n");
    reveal_with_fuel(unbroken, 9);
    assert(unbroken("# Reference embeds\n"@, 8));
    assert(unbroken("# Reference embeds\n"@, 16));
    is_ascii_chars_encode_utf8("\n"@);
    assert(utf8("\n"@) =~= seq![10u8]);
    assert("\n# Reference embeds\n"@ =~= "\n"@ + "# Reference embeds\n"@);
    lemma_utf8_concat("\n"@, "# Reference embeds\n"@);
}

pub proof fn lemma_embed_rows_valid(p: Palette)
    ensures
        valid_utf8(embed_rows(p)),
{
    reveal(embed_rows);
    lemma_utf8_valid("\n# Reference embeds\n"@);
    let s0 = utf8("\n# Reference embeds\n"@);
    lemma_row_valid("embed_border"@, p.embed_border);
    valid_utf8_concat(s0, row("embed_border"@, p.embed_border));
    let s1 = s0 + row("embed_border"@, p.embed_border);
    lemma_row_valid("embed_tint"@, p.embed_tint);
    valid_utf8_concat(s1, row("embed_tint"@, p.embed_tint));
    let s2 = s1 + row("embed_tint"@, p.embed_tint);
    lemma_row_valid("embed_hover"@, p.embed_hover);
    valid_utf8_concat(s2, row("embed_hover"@, p.embed_hover));
    let s3 = s2 + row("embed_hover"@, p.embed_hover);
    assert(s3 == embed_rows(p));
}

pub proof fn lemma_bar_rows(b: Seq<u8>, at: int, p: Palette, q: Palette)
    requires
        valid_utf8(b),
        stands_at(b, at, bar_rows(p)),
    ensures
        read_on(b, at, q) == read_on(
            b,
            at + bar_rows(p).len(),
            (Palette {
                cell_bar_default: p.cell_bar_default,
                cell_bar_snoozed: p.cell_bar_snoozed,
                cell_bar_resurfaced: p.cell_bar_resurfaced,
                cell_bar_closed: p.cell_bar_closed,
                ..q
            }),
        ),
{
    reveal(bar_rows);
    let s0 = utf8("\n# Cell left-edge state bars\n"@);
    let s1 = s0 + row("cell_bar_default"@, p.cell_bar_default);
    let s2 = s1 + row("cell_bar_snoozed"@, p.cell_bar_snoozed);
    let s3 = s2 + row("cell_bar_resurfaced"@, p.cell_bar_resurfaced);
    let s4 = s3 + row("cell_bar_closed"@, p.cell_bar_closed);
    assert(s4 == bar_rows(p));
    lemma_parts(b, at, s3, row("cell_bar_closed"@, p.cell_bar_closed));
    lemma_parts(b, at, s2, row("cell_bar_resurfaced"@, p.cell_bar_resurfaced));
    lemma_parts(b, at, s1, row("cell_bar_snoozed"@, p.cell_bar_snoozed));
    lemma_parts(b, at, s0, row("cell_bar_default"@, p.cell_bar_default));
    lemma_literal_bar_rows_0();
    let l0_0 = utf8("\n"@);
    let l0_1 = l0_0 + utf8("# Cell left-edge state bars\n"@);
    assert(utf8("\n# Cell left-edge state bars\n"@) == l0_1);
    lemma_parts(b, at, l0_0, utf8("# Cell left-edge state bars\n"@));
    lemma_at(b, at, utf8("\n"@));
    assert(b[at + 0] == utf8("\n"@)[0]);
    lemma_blank(b, at, q);
    lemma_comment(b, at + l0_0.len(), "# Cell left-edge state bars\n"@, q);
    lemma_set_cell_bar_default(q, p.cell_bar_default);
    lemma_row(b, at + s0.len(), "cell_bar_default"@, 2158794728, p.cell_bar_default, q);
    let q1 = Palette { cell_bar_default: p.cell_bar_default, ..q };
    lemma_set_cell_bar_snoozed(q1, p.cell_bar_snoozed);
    lemma_row(b, at + s1.len(), "cell_bar_snoozed"@, 2158808965, p.cell_bar_snoozed, q1);
    let q2 = Palette { cell_bar_snoozed: p.cell_bar_snoozed, ..q1 };
    lemma_set_cell_bar_resurfaced(q2, p.cell_bar_resurfaced);
    lemma_row(b, at + s2.len(), "cell_bar_resurfaced"@, 58287775795, p.cell_bar_resurfaced, q2);
    let q3 = Palette { cell_bar_resurfaced: p.cell_bar_resurfaced, ..q2 };
    lemma_set_cell_bar_closed(q3, p.cell_bar_closed);
    lemma_row(b, at + s3.len(), "cell_bar_closed"@, 719598877, p.cell_bar_closed, q3);
    let q4 = Palette { cell_bar_closed: p.cell_bar_closed, ..q3 };
}

pub proof fn lemma_literal_bar_rows_0()
    ensures
        utf8("\n"@) == seq![10u8],
        comment("# Cell left-edge state bars\n"@),
        utf8("\n# Cell left-edge state bars\n"@) == utf8("\n"@) + utf8("# Cell left-edge state bars\n"@),
{
    reveal(comment);
    reveal_strlit("\n");
    reveal_strlit("# Cell left-edge state bars\n");
    reveal_strlit("\n# Cell left-edge state bars\n");
    reveal_with_fuel(unbroken, 9);
    assert(unbroken("# Cell left-edge state bars\n"@, 8));
    assert(unbroken("# Cell left-edge state bars\n"@, 16));
    assert(unbroken("# Cell left-edge state bars\n"@, 24));
    is_ascii_chars_encode_utf8("\n"@);
    assert(utf8("\n"@) =~= seq![10u8]);
    assert("\n# Cell left-edge state bars\n"@ =~= "\n"@ + "# Cell left-edge state bars\n"@);
    lemma_utf8_concat("\n"@, "# Cell left-edge state bars\n"@);
}

pub proof fn lemma_bar_rows_valid(p: Palette)
    ensures
        valid_utf8(bar_rows(p)),
{
    reveal(bar_rows);
    lemma_utf8_valid("\n# Cell left-edge state bars\n"@);
    let s0 = utf8("\n# Cell left-edge state bars\n"@);
    lemma_row_valid("cell_bar_default"@, p.cell_bar_default);
    valid_utf8_concat(s0, row("cell_bar_default"@, p.cell_bar_default));
    let s1 = s0 + row("cell_bar_default"@, p.cell_bar_default);
    lemma_row_valid("cell_bar_snoozed"@, p.cell_bar_snoozed);
    valid_utf8_concat(s1, row("cell_bar_snoozed"@, p.cell_bar_snoozed));
    let s2 = s1 + row("cell_bar_snoozed"@, p.cell_bar_snoozed);
    lemma_row_valid("cell_bar_resurfaced"@, p.cell_bar_resurfaced);
    valid_utf8_concat(s2, row("cell_bar_resurfaced"@, p.cell_bar_resurfaced));
    let s3 = s2 + row("cell_bar_resurfaced"@, p.cell_bar_resurfaced);
    lemma_row_valid("cell_bar_closed"@, p.cell_bar_closed);
    valid_utf8_concat(s3, row("cell_bar_closed"@, p.cell_bar_closed));
    let s4 = s3 + row("cell_bar_closed"@, p.cell_bar_closed);
    assert(s4 == bar_rows(p));
}

pub proof fn lemma_delete_rows(b: Seq<u8>, at: int, p: Palette, q: Palette)
    requires
        valid_utf8(b),
        stands_at(b, at, delete_rows(p)),
    ensures
        read_on(b, at, q) == read_on(
            b,
            at + delete_rows(p).len(),
            (Palette {
                delete_text: p.delete_text,
                delete_hover_bg: p.delete_hover_bg,
                ..q
            }),
        ),
{
    reveal(delete_rows);
    let s0 = utf8("\n# Destructive\n"@);
    let s1 = s0 + row("delete_text"@, p.delete_text);
    let s2 = s1 + row("delete_hover_bg"@, p.delete_hover_bg);
    assert(s2 == delete_rows(p));
    lemma_parts(b, at, s1, row("delete_hover_bg"@, p.delete_hover_bg));
    lemma_parts(b, at, s0, row("delete_text"@, p.delete_text));
    lemma_literal_delete_rows_0();
    let l0_0 = utf8("\n"@);
    let l0_1 = l0_0 + utf8("# Destructive\n"@);
    assert(utf8("\n# Destructive\n"@) == l0_1);
    lemma_parts(b, at, l0_0, utf8("# Destructive\n"@));
    lemma_at(b, at, utf8("\n"@));
    assert(b[at + 0] == utf8("\n"@)[0]);
    lemma_blank(b, at, q);
    lemma_comment(b, at + l0_0.len(), "# Destructive\n"@, q);
    lemma_set_delete_text(q, p.delete_text);
    lemma_row(b, at + s0.len(), "delete_text"@, 8943677, p.delete_text, q);
    let q1 = Palette { delete_text: p.delete_text, ..q };
    lemma_set_delete_hover_bg(q1, p.delete_hover_bg);
    lemma_row(b, at + s1.len(), "delete_hover_bg"@, 724421512, p.delete_hover_bg, q1);
    let q2 = Palette { delete_hover_bg: p.delete_hover_bg, ..q1 };
}

pub proof fn lemma_literal_delete_rows_0()
    ensures
        utf8("\n"@) == seq![10u8],
        comment("# Destructive\n"@),
        utf8("\n# Destructive\n"@) == utf8("\n"@) + utf8("# Destructive\n"@),
{
    reveal(comment);
    reveal_strlit("\n");
    reveal_strlit("# Destructive\n");
    reveal_strlit("\n# Destructive\n");
    reveal_with_fuel(unbroken, 9);
    assert(unbroken("# Destructive\n"@, 8));
    is_ascii_chars_encode_utf8("\n"@);
    assert(utf8("\n"@) =~= seq![10u8]);
    assert("\n# Destructive\n"@ =~= "\n"@ + "# Destructive\n"@);
    lemma_utf8_concat("\n"@, "# Destructive\n"@);
}

pub proof fn lemma_delete_rows_valid(p: Palette)
    ensures
        valid_utf8(delete_rows(p)),
{
    reveal(delete_rows);
    lemma_utf8_valid("\n# Destructive\n"@);
    let s0 = utf8("\n# Destructive\n"@);
    lemma_row_valid("delete_text"@, p.delete_text);
    valid_utf8_concat(s0, row("delete_text"@, p.delete_text));
    let s1 = s0 + row("delete_text"@, p.delete_text);
    lemma_row_valid("delete_hover_bg"@, p.delete_hover_bg);
    valid_utf8_concat(s1, row("delete_hover_bg"@, p.delete_hover_bg));
    let s2 = s1 + row("delete_hover_bg"@, p.delete_hover_bg);
    assert(s2 == delete_rows(p));
}

pub proof fn lemma_border_rows(b: Seq<u8>, at: int, p: Palette, q: Palette)
    requires
        valid_utf8(b),
        stands_at(b, at, border_rows(p)),
    ensures
        read_on(b, at, q) == read_on(
            b,
            at + border_rows(p).len(),
            (Palette {
                menu_border: p.menu_border,
                panel_border_warm: p.panel_border_warm,
                divider_pane: p.divider_pane,
                divider_pane_hover: p.divider_pane_hover,
                hairline_divider: p.hairline_divider,
                ..q
            }),
        ),
{
    reveal(border_rows);
    let s0 = utf8("\n# Borders / dividers / hairlines\n"@);
    let s1 = s0 + row("menu_border"@, p.menu_border);
    let s2 = s1 + row("panel_border_warm"@, p.panel_border_warm);
    let s3 = s2 + row("divider_pane"@, p.divider_pane);
    let s4 = s3 + row("divider_pane_hover"@, p.divider_pane_hover);
    let s5 = s4 + row("hairline_divider"@, p.hairline_divider);
    assert(s5 == border_rows(p));
    lemma_parts(b, at, s4, row("hairline_divider"@, p.hairline_divider));
    lemma_parts(b, at, s3, row("divider_pane_hover"@, p.divider_pane_hover));
    lemma_parts(b, at, s2, row("divider_pane"@, p.divider_pane));
    lemma_parts(b, at, s1, row("panel_border_warm"@, p.panel_border_warm));
    lemma_parts(b, at, s0, row("menu_border"@, p.menu_border));
    lemma_literal_border_rows_0();
    let l0_0 = utf8("\n"@);
    let l0_1 = l0_0 + utf8("# Borders / dividers / hairlines\n"@);
    assert(utf8("\n# Borders / dividers / hairlines\n"@) == l0_1);
    lemma_parts(b, at, l0_0, utf8("# Borders / dividers / hairlines\n"@));
    lemma_at(b, at, utf8("\n"@));
    assert(b[at + 0] == utf8("\n"@)[0]);
    lemma_blank(b, at, q);
    lemma_comment(b, at + l0_0.len(), "# Borders / dividers / hairlines\n"@, q);
    lemma_set_menu_border(q, p.menu_border);
    lemma_row(b, at + s0.len(), "menu_border"@, 9508368, p.menu_border, q);
    let q1 = Palette { menu_border: p.menu_border, ..q };
    lemma_set_panel_border_warm(q1, p.panel_border_warm);
    lemma_row(b, at + s1.len(), "panel_border_warm"@, 6983506369, p.panel_border_warm, q1);
    let q2 = Palette { panel_border_warm: p.panel_border_warm, ..q1 };
    lemma_set_divider_pane(q2, p.divider_pane);
    lemma_row(b, at + s2.len(), "divider_pane"@, 27258398, p.divider_pane, q2);
    let q3 = Palette { divider_pane: p.divider_pane, ..q2 };
    lemma_set_divider_pane_hover(q3, p.divider_pane_hover);
    lemma_row(b, at + s3.len(), "divider_pane_hover"@, 19871408127, p.divider_pane_hover, q3);
    let q4 = Palette { divider_pane_hover: p.divider_pane_hover, ..q3 };
    lemma_set_hairline_divider(q4, p.hairline_divider);
    lemma_row(b, at + s4.len(), "hairline_divider"@, 2212702212, p.hairline_divider, q4);
    let q5 = Palette { hairline_divider: p.hairline_divider, ..q4 };
}

pub proof fn lemma_literal_border_rows_0()
    ensures
        utf8("\n"@) == seq![10u8],
        comment("# Borders / dividers / hairlines\n"@),
        utf8("\n# Borders / dividers / hairlines\n"@) == utf8("\n"@) + utf8("# Borders / dividers / hairlines\n"@),
{
    reveal(comment);
    reveal_strlit("\n");
    reveal_strlit("# Borders / dividers / hairlines\n");
    reveal_strlit("\n# Borders / dividers / hairlines\n");
    reveal_with_fuel(unbroken, 9);
    assert(unbroken("# Borders / dividers / hairlines\n"@, 8));
    assert(unbroken("# Borders / dividers / hairlines\n"@, 16));
    assert(unbroken("# Borders / dividers / hairlines\n"@, 24));
    is_ascii_chars_encode_utf8("\n"@);
    assert(utf8("\n"@) =~= seq![10u8]);
    assert("\n# Borders / dividers / hairlines\n"@ =~= "\n"@ + "# Borders / dividers / hairlines\n"@);
    lemma_utf8_concat("\n"@, "# Borders / dividers / hairlines\n"@);
}

pub proof fn lemma_border_rows_valid(p: Palette)
    ensures
        valid_utf8(border_rows(p)),
{
    reveal(border_rows);
    lemma_utf8_valid("\n# Borders / dividers / hairlines\n"@);
    let s0 = utf8("\n# Borders / dividers / hairlines\n"@);
    lemma_row_valid("menu_border"@, p.menu_border);
    valid_utf8_concat(s0, row("menu_border"@, p.menu_border));
    let s1 = s0 + row("menu_border"@, p.menu_border);
    lemma_row_valid("panel_border_warm"@, p.panel_border_warm);
    valid_utf8_concat(s1, row("panel_border_warm"@, p.panel_border_warm));
    let s2 = s1 + row("panel_border_warm"@, p.panel_border_warm);
    lemma_row_valid("divider_pane"@, p.divider_pane);
    valid_utf8_concat(s2, row("divider_pane"@, p.divider_pane));
    let s3 = s2 + row("divider_pane"@, p.divider_pane);
    lemma_row_valid("divider_pane_hover"@, p.divider_pane_hover);
    valid_utf8_concat(s3, row("divider_pane_hover"@, p.divider_pane_hover));
    let s4 = s3 + row("divider_pane_hover"@, p.divider_pane_hover);
    lemma_row_valid("hairline_divider"@, p.hairline_divider);
    valid_utf8_concat(s4, row("hairline_divider"@, p.hairline_divider));
    let s5 = s4 + row("hairline_divider"@, p.hairline_divider);
    assert(s5 == border_rows(p));
}

pub proof fn lemma_hover_rows(b: Seq<u8>, at: int, p: Palette, q: Palette)
    requires
        valid_utf8(b),
        stands_at(b, at, hover_rows(p)),
    ensures
        read_on(b, at, q) == read_on(
            b,
            at + hover_rows(p).len(),
            (Palette {
                hover_faint: p.hover_faint,
                button_border_faint: p.button_border_faint,
                ..q
            }),
        ),
{
    reveal(hover_rows);
    let s0 = row("hover_faint"@, p.hover_faint);
    let s1 = s0 + row("button_border_faint"@, p.button_border_faint);
    assert(s1 == hover_rows(p));
    lemma_parts(b, at, s0, row("button_border_faint"@, p.button_border_faint));
    lemma_set_hover_faint(q, p.hover_faint);
    lemma_row(b, at, "hover_faint"@, 9439457, p.hover_faint, q);
    let q0 = Palette { hover_faint: p.hover_faint, ..q };
    lemma_set_button_border_faint(q0, p.button_border_faint);
    lemma_row(b, at + s0.len(), "button_border_faint"@, 60518425982, p.button_border_faint, q0);
    let q1 = Palette { button_border_faint: p.button_border_faint, ..q0 };
}

pub proof fn lemma_hover_rows_valid(p: Palette)
    ensures
        valid_utf8(hover_rows(p)),
{
    reveal(hover_rows);
    lemma_row_valid("hover_faint"@, p.hover_faint);
    let s0 = row("hover_faint"@, p.hover_faint);
    lemma_row_valid("button_border_faint"@, p.button_border_faint);
    valid_utf8_concat(s0, row("button_border_faint"@, p.button_border_faint));
    let s1 = s0 + row("button_border_faint"@, p.button_border_faint);
    assert(s1 == hover_rows(p));
}

pub proof fn lemma_toggle_rows(b: Seq<u8>, at: int, p: Palette, q: Palette)
    requires
        valid_utf8(b),
        stands_at(b, at, toggle_rows(p)),
    ensures
        read_on(b, at, q) == read_on(
            b,
            at + toggle_rows(p).len(),
            (Palette {
                toggle_off_bg: p.toggle_off_bg,
                toggle_inactive_bg: p.toggle_inactive_bg,
                heading_rule: p.heading_rule,
                ..q
            }),
        ),
{
    reveal(toggle_rows);
    let s0 = utf8("\n# Toggles + heading rule\n"@);
    let s1 = s0 + row("toggle_off_bg"@, p.toggle_off_bg);
    let s2 = s1 + row("toggle_inactive_bg"@, p.toggle_inactive_bg);
    let s3 = s2 + row("heading_rule"@, p.heading_rule);
    assert(s3 == toggle_rows(p));
    lemma_parts(b, at, s2, row("heading_rule"@, p.heading_rule));
    lemma_parts(b, at, s1, row("toggle_inactive_bg"@, p.toggle_inactive_bg));
    lemma_parts(b, at, s0, row("toggle_off_bg"@, p.toggle_off_bg));
    lemma_literal_toggle_rows_0();
    let l0_0 = utf8("\n"@);
    let l0_1 = l0_0 + utf8("# Toggles + heading rule\n"@);
    assert(utf8("\n# Toggles + heading rule\n"@) == l0_1);
    lemma_parts(b, at, l0_0, utf8("# Toggles + heading rule\n"@));
    lemma_at(b, at, utf8("\n"@));
    assert(b[at + 0] == utf8("\n"@)[0]);
    lemma_blank(b, at, q);
    lemma_comment(b, at + l0_0.len(), "# Toggles + heading rule\n"@, q);
    lemma_set_toggle_off_bg(q, p.toggle_off_bg);
    lemma_row(b, at + s0.len(), "toggle_off_bg"@, 90457840, p.toggle_off_bg, q);
    let q1 = Palette { toggle_off_bg: p.toggle_off_bg, ..q };
    lemma_set_toggle_inactive_bg(q1, p.toggle_inactive_bg);
    lemma_row(b, at + s1.len(), "toggle_inactive_bg"@, 21981061378, p.toggle_inactive_bg, q1);
    let q2 = Palette { toggle_inactive_bg: p.toggle_inactive_bg, ..q1 };
    lemma_set_heading_rule(q2, p.heading_rule);
    lemma_row(b, at + s2.len(), "heading_rule"@, 27299693, p.heading_rule, q2);
    let q3 = Palette { heading_rule: p.heading_rule, ..q2 };
}

pub proof fn lemma_literal_toggle_rows_0()
    ensures
        utf8("\n"@) == seq![10u8],
        comment("# Toggles + heading rule\n"@),
        utf8("\n# Toggles + heading rule\n"@) == utf8("\n"@) + utf8("# Toggles + heading rule\n"@),
{
    reveal(comment);
    reveal_strlit("\n");
    reveal_strlit("# Toggles + heading rule\n");
    reveal_strlit("\n# Toggles + heading rule\n");
    reveal_with_fuel(unbroken, 9);
    assert(unbroken("# Toggles + heading rule\n"@, 8));
    assert(unbroken("# Toggles + heading rule\n"@, 16));
    is_ascii_chars_encode_utf8("\n"@);
    assert(utf8("\n"@) =~= seq![10u8]);
    assert("\n# Toggles + heading rule\n"@ =~= "\n"@ + "# Toggles + heading rule\n"@);
    lemma_utf8_concat("\n"@, "# Toggles + heading rule\n"@);
}

pub proof fn lemma_toggle_rows_valid(p: Palette)
    ensures
        valid_utf8(toggle_rows(p)),
{
    reveal(toggle_rows);
    lemma_utf8_valid("\n# Toggles + heading rule\n"@);
    let s0 = utf8("\n# Toggles + heading rule\n"@);
    lemma_row_valid("toggle_off_bg"@, p.toggle_off_bg);
    valid_utf8_concat(s0, row("toggle_off_bg"@, p.toggle_off_bg));
    let s1 = s0 + row("toggle_off_bg"@, p.toggle_off_bg);
    lemma_row_valid("toggle_inactive_bg"@, p.toggle_inactive_bg);
    valid_utf8_concat(s1, row("toggle_inactive_bg"@, p.toggle_inactive_bg));
    let s2 = s1 + row("toggle_inactive_bg"@, p.toggle_inactive_bg);
    lemma_row_valid("heading_rule"@, p.heading_rule);
    valid_utf8_concat(s2, row("heading_rule"@, p.heading_rule));
    let s3 = s2 + row("heading_rule"@, p.heading_rule);
    assert(s3 == toggle_rows(p));
}

pub proof fn lemma_shadow_rows(b: Seq<u8>, at: int, p: Palette, q: Palette)
    requires
        valid_utf8(b),
        stands_at(b, at, shadow_rows(p)),
    ensures
        read_on(b, at, q) == read_on(
            b,
            at + shadow_rows(p).len(),
            (Palette {
                shadow_soft: p.shadow_soft,
                shadow_menu: p.shadow_menu,
                ..q
            }),
        ),
{
    reveal(shadow_rows);
    let s0 = utf8("\n# Drop shadows\n"@);
    let s1 = s0 + row("shadow_soft"@, p.shadow_soft);
    let s2 = s1 + row("shadow_menu"@, p.shadow_menu);
    assert(s2 == shadow_rows(p));
    lemma_parts(b, at, s1, row("shadow_menu"@, p.shadow_menu));
    lemma_parts(b, at, s0, row("shadow_soft"@, p.shadow_soft));
    lemma_literal_shadow_rows_0();
    let l0_0 = utf8("\n"@);
    let l0_1 = l0_0 + utf8("# Drop shadows\n"@);
    assert(utf8("\n# Drop shadows\n"@) == l0_1);
    lemma_parts(b, at, l0_0, utf8("# Drop shadows\n"@));
    lemma_at(b, at, utf8("\n"@));
    assert(b[at + 0] == utf8("\n"@)[0]);
    lemma_blank(b, at, q);
    lemma_comment(b, at + l0_0.len(), "# Drop shadows\n"@, q);
    lemma_set_shadow_soft(q, p.shadow_soft);
    lemma_row(b, at + s0.len(), "shadow_soft"@, 9814841, p.shadow_soft, q);
    let q1 = Palette { shadow_soft: p.shadow_soft, ..q };
    lemma_set_shadow_menu(q1, p.shadow_menu);
    lemma_row(b, at + s1.len(), "shadow_menu"@, 9814614, p.shadow_menu, q1);
    let q2 = Palette { shadow_menu: p.shadow_menu, ..q1 };
}

pub proof fn lemma_literal_shadow_rows_0()
    ensures
        utf8("\n"@) == seq![10u8],
        comment("# Drop shadows\n"@),
        utf8("\n# Drop shadows\n"@) == utf8("\n"@) + utf8("# Drop shadows\n"@),
{
    reveal(comment);
    reveal_strlit("\n");
    reveal_strlit("# Drop shadows\n");
    reveal_strlit("\n# Drop shadows\n");
    reveal_with_fuel(unbroken, 9);
    assert(unbroken("# Drop shadows\n"@, 8));
    is_ascii_chars_encode_utf8("\n"@);
    assert(utf8("\n"@) =~= seq![10u8]);
    assert("\n# Drop shadows\n"@ =~= "\n"@ + "# Drop shadows\n"@);
    lemma_utf8_concat("\n"@, "# Drop shadows\n"@);
}

pub proof fn lemma_shadow_rows_valid(p: Palette)
    ensures
        valid_utf8(shadow_rows(p)),
{
    reveal(shadow_rows);
    lemma_utf8_valid("\n# Drop shadows\n"@);
    let s0 = utf8("\n# Drop shadows\n"@);
    lemma_row_valid("shadow_soft"@, p.shadow_soft);
    valid_utf8_concat(s0, row("shadow_soft"@, p.shadow_soft));
    let s1 = s0 + row("shadow_soft"@, p.shadow_soft);
    lemma_row_valid("shadow_menu"@, p.shadow_menu);
    valid_utf8_concat(s1, row("shadow_menu"@, p.shadow_menu));
    let s2 = s1 + row("shadow_menu"@, p.shadow_menu);
    assert(s2 == shadow_rows(p));
}

pub proof fn lemma_grid_rows(b: Seq<u8>, at: int, p: Palette, q: Palette)
    requires
        valid_utf8(b),
        stands_at(b, at, grid_rows(p)),
    ensures
        read_on(b, at, q) == read_on(
            b,
            at + grid_rows(p).len(),
            (Palette {
                grid_stripe: p.grid_stripe,
                grid_divider: p.grid_divider,
                ..q
            }),
        ),
{
    reveal(grid_rows);
    let s0 = utf8("\n# Calc grid (Pop-Pop, Table)\n"@);
    let s1 = s0 + row("grid_stripe"@, p.grid_stripe);
    let s2 = s1 + row("grid_divider"@, p.grid_divider);
    assert(s2 == grid_rows(p));
    lemma_parts(b, at, s1, row("grid_divider"@, p.grid_divider));
    lemma_parts(b, at, s0, row("grid_stripe"@, p.grid_stripe));
    lemma_literal_grid_rows_0();
    let l0_0 = utf8("\n"@);
    let l0_1 = l0_0 + utf8("# Calc grid (Pop-Pop, Table)\n"@);
    assert(utf8("\n# Calc grid (Pop-Pop, Table)\n"@) == l0_1);
    lemma_parts(b, at, l0_0, utf8("# Calc grid (Pop-Pop, Table)\n"@));
    lemma_at(b, at, utf8("\n"@));
    assert(b[at + 0] == utf8("\n"@)[0]);
    lemma_blank(b, at, q);
    lemma_comment(b, at + l0_0.len(), "# Calc grid (Pop-Pop, Table)\n"@, q);
    lemma_set_grid_stripe(q, p.grid_stripe);
    lemma_row(b, at + s0.len(), "grid_stripe"@, 9344570, p.grid_stripe, q);
    let q1 = Palette { grid_stripe: p.grid_stripe, ..q };
    lemma_set_grid_divider(q1, p.grid_divider);
    lemma_row(b, at + s1.len(), "grid_divider"@, 28020432, p.grid_divider, q1);
    let q2 = Palette { grid_divider: p.grid_divider, ..q1 };
}

pub proof fn lemma_literal_grid_rows_0()
    ensures
        utf8("\n"@) == seq![10u8],
        comment("# Calc grid (Pop-Pop, Table)\n"@),
        utf8("\n# Calc grid (Pop-Pop, Table)\n"@) == utf8("\n"@) + utf8("# Calc grid (Pop-Pop, Table)\n"@),
{
    reveal(comment);
    reveal_strlit("\n");
    reveal_strlit("# Calc grid (Pop-Pop, Table)\n");
    reveal_strlit("\n# Calc grid (Pop-Pop, Table)\n");
    reveal_with_fuel(unbroken, 9);
    assert(unbroken("# Calc grid (Pop-Pop, Table)\n"@, 8));
    assert(unbroken("# Calc grid (Pop-Pop, Table)\n"@, 16));
    assert(unbroken("# Calc grid (Pop-Pop, Table)\n"@, 24));
    is_ascii_chars_encode_utf8("\n"@);
    assert(utf8("\n"@) =~= seq![10u8]);
    assert("\n# Calc grid (Pop-Pop, Table)\n"@ =~= "\n"@ + "# Calc grid (Pop-Pop, Table)\n"@);
    lemma_utf8_concat("\n"@, "# Calc grid (Pop-Pop, Table)\n"@);
}

pub proof fn lemma_grid_rows_valid(p: Palette)
    ensures
        valid_utf8(grid_rows(p)),
{
    reveal(grid_rows);
    lemma_utf8_valid("\n# Calc grid (Pop-Pop, Table)\n"@);
    let s0 = utf8("\n# Calc grid (Pop-Pop, Table)\n"@);
    lemma_row_valid("grid_stripe"@, p.grid_stripe);
    valid_utf8_concat(s0, row("grid_stripe"@, p.grid_stripe));
    let s1 = s0 + row("grid_stripe"@, p.grid_stripe);
    lemma_row_valid("grid_divider"@, p.grid_divider);
    valid_utf8_concat(s1, row("grid_divider"@, p.grid_divider));
    let s2 = s1 + row("grid_divider"@, p.grid_divider);
    assert(s2 == grid_rows(p));
}

pub proof fn lemma_dark_rows(b: Seq<u8>, at: int, p: Palette, q: Palette)
    requires
        valid_utf8(b),
        stands_at(b, at, dark_rows(p)),
    ensures
        read_on(b, at, q) == read_on(
            b,
            at + dark_rows(p).len(),
            (Palette {
                dark_alpha_base: p.dark_alpha_base,
                ..q
            }),
        ),
{
    reveal(dark_rows);
    let s0 = utf8("\n# Base used by the `dark_alpha(a)` runtime composer (cell outline,\n"@);
    let s1 = s0 + utf8("# scrollbar thumb, button background).\n"@);
    let s2 = s1 + row("dark_alpha_base"@, p.dark_alpha_base);
    assert(s2 == dark_rows(p));
    lemma_parts(b, at, s1, row("dark_alpha_base"@, p.dark_alpha_base));
    lemma_parts(b, at, s0, utf8("# scrollbar thumb, button background).\n"@));
    lemma_literal_dark_rows_0();
    let l0_0 = utf8("\n"@);
    let l0_1 = l0_0 + utf8("# Base used by the `dark_alpha(a)` runtime composer (cell outline,\n"@);
    assert(utf8("\n# Base used by the `dark_alpha(a)` runtime composer (cell outline,\n"@) == l0_1);
    lemma_parts(b, at, l0_0, utf8("# Base used by the `dark_alpha(a)` runtime composer (cell outline,\n"@));
    lemma_at(b, at, utf8("\n"@));
    assert(b[at + 0] == utf8("\n"@)[0]);
    lemma_blank(b, at, q);
    lemma_comment(b, at + l0_0.len(), "# Base used by the `dark_alpha(a)` runtime composer (cell outline,\n"@, q);
    lemma_literal_dark_rows_1();
    lemma_comment(b, at + s0.len(), "# scrollbar thumb, button background).\n"@, q);
    lemma_set_dark_alpha_base(q, p.dark_alpha_base);
    lemma_row(b, at + s1.len(), "dark_alpha_base"@, 721068719, p.dark_alpha_base, q);
    let q2 = Palette { dark_alpha_base: p.dark_alpha_base, ..q };
}

pub proof fn lemma_literal_dark_rows_0()
    ensures
        utf8("\n"@) == seq![10u8],
        comment("# Base used by the `dark_alpha(a)` runtime composer (cell outline,\n"@),
        utf8("\n# Base used by the `dark_alpha(a)` runtime composer (cell outline,\n"@) == utf8("\n"@) + utf8("# Base used by the `dark_alpha(a)` runtime composer (cell outline,\n"@),
{
    reveal(comment);
    reveal_strlit("\n");
    reveal_strlit("# Base used by the `dark_alpha(a)` runtime composer (cell outline,\n");
    reveal_strlit("\n# Base used by the `dark_alpha(a)` runtime composer (cell outline,\n");
    reveal_with_fuel(unbroken, 9);
    assert(unbroken("# Base used by the `dark_alpha(a)` runtime composer (cell outline,\n"@, 8));
    assert(unbroken("# Base used by the `dark_alpha(a)` runtime composer (cell outline,\n"@, 16));
    assert(unbroken("# Base used by the `dark_alpha(a)` runtime composer (cell outline,\n"@, 24));
    assert(unbroken("# Base used by the `dark_alpha(a)` runtime composer (cell outline,\n"@, 32));
    assert(unbroken("# Base used by the `dark_alpha(a)` runtime composer (cell outline,\n"@, 40));
    assert(unbroken("# Base used by the `dark_alpha(a)` runtime composer (cell outline,\n"@, 48));
    assert(unbroken("# Base used by the `dark_alpha(a)` runtime composer (cell outline,\n"@, 56));
    assert(unbroken("# Base used by the `dark_alpha(a)` runtime composer (cell outline,\n"@, 64));
    is_ascii_chars_encode_utf8("\n"@);
    assert(utf8("\n"@) =~= seq![10u8]);
    assert("\n# Base used by the `dark_alpha(a)` runtime composer (cell outline,\n"@ =~= "\n"@ + "# Base used by the `dark_alpha(a)` runtime composer (cell outline,\n"@);
    lemma_utf8_concat("\n"@, "# Base used by the `dark_alpha(a)` runtime composer (cell outline,\n"@);
}

pub proof fn lemma_literal_dark_rows_1()
    ensures
        comment("# scrollbar thumb, button background).\n"@),
{
    reveal(comment);
    reveal_strlit("# scrollbar thumb, button background).\n");
    reveal_with_fuel(unbroken, 9);
    assert(unbroken("# scrollbar thumb, button background).\n"@, 8));
    assert(unbroken("# scrollbar thumb, button background).\n"@, 16));
    assert(unbroken("# scrollbar thumb, button background).\n"@, 24));
    assert(unbroken("# scrollbar thumb, button background).\n"@, 32));
}

pub proof fn lemma_dark_rows_valid(p: Palette)
    ensures
        valid_utf8(dark_rows(p)),
{
    reveal(dark_rows);
    lemma_utf8_valid("\n# Base used by the `dark_alpha(a)` runtime composer (cell outline,\n"@);
    let s0 = utf8("\n# Base used by the `dark_alpha(a)` runtime composer (cell outline,\n"@);
    lemma_utf8_valid("# scrollbar thumb, button background).\n"@);
    valid_utf8_concat(s0, utf8("# scrollbar thumb, button background).\n"@));
    let s1 = s0 + utf8("# scrollbar thumb, button background).\n"@);
    lemma_row_valid("dark_alpha_base"@, p.dark_alpha_base);
    valid_utf8_concat(s1, row("dark_alpha_base"@, p.dark_alpha_base));
    let s2 = s1 + row("dark_alpha_base"@, p.dark_alpha_base);
    assert(s2 == dark_rows(p));
}

} // verus!
