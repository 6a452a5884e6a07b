//! Setting a color by its key.
use vstd::prelude::*;
use vstd::utf8::*;

use crate::color::{palette_set, Color, Palette};
use crate::color::keys::{
    lemma_key_accent_blue, lemma_key_accent_blue_focus_edit, lemma_key_accent_blue_pane_border,
    lemma_key_accent_blue_selection, lemma_key_bg_card, lemma_key_bg_page, lemma_key_bg_panel,
    lemma_key_bullet_marker, lemma_key_button_border_faint, lemma_key_cell_bar_closed,
    lemma_key_cell_bar_default, lemma_key_cell_bar_resurfaced, lemma_key_cell_bar_snoozed,
    lemma_key_dark_alpha_base, lemma_key_delete_hover_bg, lemma_key_delete_text,
    lemma_key_divider_pane, lemma_key_divider_pane_hover, lemma_key_embed_border,
    lemma_key_embed_hover, lemma_key_embed_tint, lemma_key_grid_divider, lemma_key_grid_stripe,
    lemma_key_hairline_divider, lemma_key_heading_rule, lemma_key_hover_faint, lemma_key_link_text,
    lemma_key_menu_border, lemma_key_pane_header_bg, lemma_key_panel_border_warm,
    lemma_key_poppop_comment, lemma_key_poppop_error, lemma_key_poppop_output,
    lemma_key_shadow_menu, lemma_key_shadow_soft, lemma_key_sidebar_section_header,
    lemma_key_sidebar_text_primary, lemma_key_text_disabled, lemma_key_text_ghost,
    lemma_key_text_ghost_warm, lemma_key_text_menu_row, lemma_key_text_muted_grey,
    lemma_key_text_muted_warm, lemma_key_text_muted_warm_deep, lemma_key_text_muted_warm_soft,
    lemma_key_text_primary, lemma_key_text_section_header, lemma_key_text_selection_edit,
    lemma_key_text_selection_view, lemma_key_toggle_inactive_bg, lemma_key_toggle_off_bg,
};
use crate::color::reading::{keyed, lemma_apart};
use crate::text::utf8;

verus! {

/// Every key has a number of its own.
#[verifier::opaque]
pub open spec fn keys_known() -> bool {

    &&& keyed("bg_page"@, 108473)
    &&& keyed("bg_panel"@, 325590)
    &&& keyed("bg_card"@, 108154)
    &&& keyed("text_primary"@, 29965936)
    &&& keyed("text_menu_row"@, 89883668)
    &&& keyed("text_muted_grey"@, 809059285)
    &&& keyed("text_muted_warm_deep"@, 196601492332)
    &&& keyed("text_muted_warm"@, 809059591)
    &&& keyed("text_muted_warm_soft"@, 196601492834)
    &&& keyed("text_section_header"@, 65532947097)
    &&& keyed("sidebar_text_primary"@, 193733301703)
    &&& keyed("sidebar_section_header"@, 1743594574026)
    &&& keyed("pane_header_bg"@, 258444712)
    &&& keyed("text_selection_view"@, 65533572710)
    &&& keyed("text_selection_edit"@, 65533572215)
    &&& keyed("bullet_marker"@, 82334883)
    &&& keyed("text_ghost"@, 3328589)
    &&& keyed("text_disabled"@, 89866474)
    &&& keyed("text_ghost_warm"@, 808859359)
    &&& keyed("link_text"@, 1056626)
    &&& keyed("poppop_output"@, 89086220)
    &&& keyed("poppop_comment"@, 267247760)
    &&& keyed("poppop_error"@, 29694453)
    &&& keyed("accent_blue"@, 8666939)
    &&& keyed("accent_blue_selection"@, 511777042112)
    &&& keyed("accent_blue_pane_border"@, 4605993129855)
    &&& keyed("accent_blue_focus_edit"@, 1535330930129)
    &&& keyed("embed_border"@, 27244938)
    &&& keyed("embed_tint"@, 3027605)
    &&& keyed("embed_hover"@, 9082146)
    &&& keyed("cell_bar_default"@, 2158794728)
    &&& keyed("cell_bar_snoozed"@, 2158808965)
    &&& keyed("cell_bar_resurfaced"@, 58287775795)
    &&& keyed("cell_bar_closed"@, 719598877)
    &&& keyed("delete_text"@, 8943677)
    &&& keyed("delete_hover_bg"@, 724421512)
    &&& keyed("menu_border"@, 9508368)
    &&& keyed("panel_border_warm"@, 6983506369)
    &&& keyed("divider_pane"@, 27258398)
    &&& keyed("divider_pane_hover"@, 19871408127)
    &&& keyed("hairline_divider"@, 2212702212)
    &&& keyed("hover_faint"@, 9439457)
    &&& keyed("button_border_faint"@, 60518425982)
    &&& keyed("toggle_off_bg"@, 90457840)
    &&& keyed("toggle_inactive_bg"@, 21981061378)
    &&& keyed("heading_rule"@, 27299693)
    &&& keyed("shadow_soft"@, 9814841)
    &&& keyed("shadow_menu"@, 9814614)
    &&& keyed("grid_stripe"@, 9344570)
    &&& keyed("grid_divider"@, 28020432)
    &&& keyed("dark_alpha_base"@, 721068719)
}

pub proof fn lemma_keys()
    ensures
        keys_known(),
{
    reveal(keys_known);
    lemma_key_bg_page();
    lemma_key_bg_panel();
    lemma_key_bg_card();
    lemma_key_text_primary();
    lemma_key_text_menu_row();
    lemma_key_text_muted_grey();
    lemma_key_text_muted_warm_deep();
    lemma_key_text_muted_warm();
    lemma_key_text_muted_warm_soft();
    lemma_key_text_section_header();
    lemma_key_sidebar_text_primary();
    lemma_key_sidebar_section_header();
    lemma_key_pane_header_bg();
    lemma_key_text_selection_view();
    lemma_key_text_selection_edit();
    lemma_key_bullet_marker();
    lemma_key_text_ghost();
    lemma_key_text_disabled();
    lemma_key_text_ghost_warm();
    lemma_key_link_text();
    lemma_key_poppop_output();
    lemma_key_poppop_comment();
    lemma_key_poppop_error();
    lemma_key_accent_blue();
    lemma_key_accent_blue_selection();
    lemma_key_accent_blue_pane_border();
    lemma_key_accent_blue_focus_edit();
    lemma_key_embed_border();
    lemma_key_embed_tint();
    lemma_key_embed_hover();
    lemma_key_cell_bar_default();
    lemma_key_cell_bar_snoozed();
    lemma_key_cell_bar_resurfaced();
    lemma_key_cell_bar_closed();
    lemma_key_delete_text();
    lemma_key_delete_hover_bg();
    lemma_key_menu_border();
    lemma_key_panel_border_warm();
    lemma_key_divider_pane();
    lemma_key_divider_pane_hover();
    lemma_key_hairline_divider();
    lemma_key_hover_faint();
    lemma_key_button_border_faint();
    lemma_key_toggle_off_bg();
    lemma_key_toggle_inactive_bg();
    lemma_key_heading_rule();
    lemma_key_shadow_soft();
    lemma_key_shadow_menu();
    lemma_key_grid_stripe();
    lemma_key_grid_divider();
    lemma_key_dark_alpha_base();
}

pub proof fn lemma_set_bg_page(q: Palette, c: Color)
    ensures
        keyed("bg_page"@, 108473),
        palette_set(q, utf8("bg_page"@), c) == (Palette { bg_page: c, ..q }),
{
    lemma_keys();
    reveal(keys_known);
    lemma_apart("bg_page"@, 108473);
}

pub proof fn lemma_set_bg_panel(q: Palette, c: Color)
    ensures
        keyed("bg_panel"@, 325590),
        palette_set(q, utf8("bg_panel"@), c) == (Palette { bg_panel: c, ..q }),
{
    lemma_keys();
    reveal(keys_known);
    lemma_apart("bg_panel"@, 325590);
}

pub proof fn lemma_set_bg_card(q: Palette, c: Color)
    ensures
        keyed("bg_card"@, 108154),
        palette_set(q, utf8("bg_card"@), c) == (Palette { bg_card: c, ..q }),
{
    lemma_keys();
    reveal(keys_known);
    lemma_apart("bg_card"@, 108154);
}

pub proof fn lemma_set_text_primary(q: Palette, c: Color)
    ensures
        keyed("text_primary"@, 29965936),
        palette_set(q, utf8("text_primary"@), c) == (Palette { text_primary: c, ..q }),
{
    lemma_keys();
    reveal(keys_known);
    lemma_apart("text_primary"@, 29965936);
}

pub proof fn lemma_set_text_menu_row(q: Palette, c: Color)
    ensures
        keyed("text_menu_row"@, 89883668),
        palette_set(q, utf8("text_menu_row"@), c) == (Palette { text_menu_row: c, ..q }),
{
    lemma_keys();
    reveal(keys_known);
    lemma_apart("text_menu_row"@, 89883668);
}

pub proof fn lemma_set_text_muted_grey(q: Palette, c: Color)
    ensures
        keyed("text_muted_grey"@, 809059285),
        palette_set(q, utf8("text_muted_grey"@), c) == (Palette { text_muted_grey: c, ..q }),
{
    lemma_keys();
    reveal(keys_known);
    lemma_apart("text_muted_grey"@, 809059285);
}

pub proof fn lemma_set_text_muted_warm_deep(q: Palette, c: Color)
    ensures
        keyed("text_muted_warm_deep"@, 196601492332),
        palette_set(q, utf8("text_muted_warm_deep"@), c) == (Palette { text_muted_warm_deep: c, ..q }),
{
    lemma_keys();
    reveal(keys_known);
    lemma_apart("text_muted_warm_deep"@, 196601492332);
}

pub proof fn lemma_set_text_muted_warm(q: Palette, c: Color)
    ensures
        keyed("text_muted_warm"@, 809059591),
        palette_set(q, utf8("text_muted_warm"@), c) == (Palette { text_muted_warm: c, ..q }),
{
    lemma_keys();
    reveal(keys_known);
    lemma_apart("text_muted_warm"@, 809059591);
}

pub proof fn lemma_set_text_muted_warm_soft(q: Palette, c: Color)
    ensures
        keyed("text_muted_warm_soft"@, 196601492834),
        palette_set(q, utf8("text_muted_warm_soft"@), c) == (Palette { text_muted_warm_soft: c, ..q }),
{
    lemma_keys();
    reveal(keys_known);
    lemma_apart("text_muted_warm_soft"@, 196601492834);
}

pub proof fn lemma_set_text_section_header(q: Palette, c: Color)
    ensures
        keyed("text_section_header"@, 65532947097),
        palette_set(q, utf8("text_section_header"@), c) == (Palette { text_section_header: c, ..q }),
{
    lemma_keys();
    reveal(keys_known);
    lemma_apart("text_section_header"@, 65532947097);
}

pub proof fn lemma_set_sidebar_text_primary(q: Palette, c: Color)
    ensures
        keyed("sidebar_text_primary"@, 193733301703),
        palette_set(q, utf8("sidebar_text_primary"@), c) == (Palette { sidebar_text_primary: c, ..q }),
{
    lemma_keys();
    reveal(keys_known);
    lemma_apart("sidebar_text_primary"@, 193733301703);
}

pub proof fn lemma_set_sidebar_section_header(q: Palette, c: Color)
    ensures
        keyed("sidebar_section_header"@, 1743594574026),
        palette_set(q, utf8("sidebar_section_header"@), c) == (Palette { sidebar_section_header: c, ..q }),
{
    lemma_keys();
    reveal(keys_known);
    lemma_apart("sidebar_section_header"@, 1743594574026);
}

pub proof fn lemma_set_pane_header_bg(q: Palette, c: Color)
    ensures
        keyed("pane_header_bg"@, 258444712),
        palette_set(q, utf8("pane_header_bg"@), c) == (Palette { pane_header_bg: c, ..q }),
{
    lemma_keys();
    reveal(keys_known);
    lemma_apart("pane_header_bg"@, 258444712);
}

pub proof fn lemma_set_text_selection_view(q: Palette, c: Color)
    ensures
        keyed("text_selection_view"@, 65533572710),
        palette_set(q, utf8("text_selection_view"@), c) == (Palette { text_selection_view: c, ..q }),
{
    lemma_keys();
    reveal(keys_known);
    lemma_apart("text_selection_view"@, 65533572710);
}

pub proof fn lemma_set_text_selection_edit(q: Palette, c: Color)
    ensures
        keyed("text_selection_edit"@, 65533572215),
        palette_set(q, utf8("text_selection_edit"@), c) == (Palette { text_selection_edit: c, ..q }),
{
    lemma_keys();
    reveal(keys_known);
    lemma_apart("text_selection_edit"@, 65533572215);
}

pub proof fn lemma_set_bullet_marker(q: Palette, c: Color)
    ensures
        keyed("bullet_marker"@, 82334883),
        palette_set(q, utf8("bullet_marker"@), c) == (Palette { bullet_marker: c, ..q }),
{
    lemma_keys();
    reveal(keys_known);
    lemma_apart("bullet_marker"@, 82334883);
}

pub proof fn lemma_set_text_ghost(q: Palette, c: Color)
    ensures
        keyed("text_ghost"@, 3328589),
        palette_set(q, utf8("text_ghost"@), c) == (Palette { text_ghost: c, ..q }),
{
    lemma_keys();
    reveal(keys_known);
    lemma_apart("text_ghost"@, 3328589);
}

pub proof fn lemma_set_text_disabled(q: Palette, c: Color)
    ensures
        keyed("text_disabled"@, 89866474),
        palette_set(q, utf8("text_disabled"@), c) == (Palette { text_disabled: c, ..q }),
{
    lemma_keys();
    reveal(keys_known);
    lemma_apart("text_disabled"@, 89866474);
}

pub proof fn lemma_set_text_ghost_warm(q: Palette, c: Color)
    ensures
        keyed("text_ghost_warm"@, 808859359),
        palette_set(q, utf8("text_ghost_warm"@), c) == (Palette { text_ghost_warm: c, ..q }),
{
    lemma_keys();
    reveal(keys_known);
    lemma_apart("text_ghost_warm"@, 808859359);
}

pub proof fn lemma_set_link_text(q: Palette, c: Color)
    ensures
        keyed("link_text"@, 1056626),
        palette_set(q, utf8("link_text"@), c) == (Palette { link_text: c, ..q }),
{
    lemma_keys();
    reveal(keys_known);
    lemma_apart("link_text"@, 1056626);
}

pub proof fn lemma_set_poppop_output(q: Palette, c: Color)
    ensures
        keyed("poppop_output"@, 89086220),
        palette_set(q, utf8("poppop_output"@), c) == (Palette { poppop_output: c, ..q }),
{
    lemma_keys();
    reveal(keys_known);
    lemma_apart("poppop_output"@, 89086220);
}

pub proof fn lemma_set_poppop_comment(q: Palette, c: Color)
    ensures
        keyed("poppop_comment"@, 267247760),
        palette_set(q, utf8("poppop_comment"@), c) == (Palette { poppop_comment: c, ..q }),
{
    lemma_keys();
    reveal(keys_known);
    lemma_apart("poppop_comment"@, 267247760);
}

pub proof fn lemma_set_poppop_error(q: Palette, c: Color)
    ensures
        keyed("poppop_error"@, 29694453),
        palette_set(q, utf8("poppop_error"@), c) == (Palette { poppop_error: c, ..q }),
{
    lemma_keys();
    reveal(keys_known);
    lemma_apart("poppop_error"@, 29694453);
}

pub proof fn lemma_set_accent_blue(q: Palette, c: Color)
    ensures
        keyed("accent_blue"@, 8666939),
        palette_set(q, utf8("accent_blue"@), c) == (Palette { accent_blue: c, ..q }),
{
    lemma_keys();
    reveal(keys_known);
    lemma_apart("accent_blue"@, 8666939);
}

pub proof fn lemma_set_accent_blue_selection(q: Palette, c: Color)
    ensures
        keyed("accent_blue_selection"@, 511777042112),
        palette_set(q, utf8("accent_blue_selection"@), c) == (Palette { accent_blue_selection: c, ..q }),
{
    lemma_keys();
    reveal(keys_known);
    lemma_apart("accent_blue_selection"@, 511777042112);
}

pub proof fn lemma_set_accent_blue_pane_border(q: Palette, c: Color)
    ensures
        keyed("accent_blue_pane_border"@, 4605993129855),
        palette_set(q, utf8("accent_blue_pane_border"@), c) == (Palette { accent_blue_pane_border: c, ..q }),
{
    lemma_keys();
    reveal(keys_known);
    lemma_apart("accent_blue_pane_border"@, 4605993129855);
}

pub proof fn lemma_set_accent_blue_focus_edit(q: Palette, c: Color)
    ensures
        keyed("accent_blue_focus_edit"@, 1535330930129),
        palette_set(q, utf8("accent_blue_focus_edit"@), c) == (Palette { accent_blue_focus_edit: c, ..q }),
{
    lemma_keys();
    reveal(keys_known);
    lemma_apart("accent_blue_focus_edit"@, 1535330930129);
}

pub proof fn lemma_set_embed_border(q: Palette, c: Color)
    ensures
        keyed("embed_border"@, 27244938),
        palette_set(q, utf8("embed_border"@), c) == (Palette { embed_border: c, ..q }),
{
    lemma_keys();
    reveal(keys_known);
    lemma_apart("embed_border"@, 27244938);
}

pub proof fn lemma_set_embed_tint(q: Palette, c: Color)
    ensures
        keyed("embed_tint"@, 3027605),
        palette_set(q, utf8("embed_tint"@), c) == (Palette { embed_tint: c, ..q }),
{
    lemma_keys();
    reveal(keys_known);
    lemma_apart("embed_tint"@, 3027605);
}

pub proof fn lemma_set_embed_hover(q: Palette, c: Color)
    ensures
        keyed("embed_hover"@, 9082146),
        palette_set(q, utf8("embed_hover"@), c) == (Palette { embed_hover: c, ..q }),
{
    lemma_keys();
    reveal(keys_known);
    lemma_apart("embed_hover"@, 9082146);
}

pub proof fn lemma_set_cell_bar_default(q: Palette, c: Color)
    ensures
        keyed("cell_bar_default"@, 2158794728),
        palette_set(q, utf8("cell_bar_default"@), c) == (Palette { cell_bar_default: c, ..q }),
{
    lemma_keys();
    reveal(keys_known);
    lemma_apart("cell_bar_default"@, 2158794728);
}

pub proof fn lemma_set_cell_bar_snoozed(q: Palette, c: Color)
    ensures
        keyed("cell_bar_snoozed"@, 2158808965),
        palette_set(q, utf8("cell_bar_snoozed"@), c) == (Palette { cell_bar_snoozed: c, ..q }),
{
    lemma_keys();
    reveal(keys_known);
    lemma_apart("cell_bar_snoozed"@, 2158808965);
}

pub proof fn lemma_set_cell_bar_resurfaced(q: Palette, c: Color)
    ensures
        keyed("cell_bar_resurfaced"@, 58287775795),
        palette_set(q, utf8("cell_bar_resurfaced"@), c) == (Palette { cell_bar_resurfaced: c, ..q }),
{
    lemma_keys();
    reveal(keys_known);
    lemma_apart("cell_bar_resurfaced"@, 58287775795);
}

pub proof fn lemma_set_cell_bar_closed(q: Palette, c: Color)
    ensures
        keyed("cell_bar_closed"@, 719598877),
        palette_set(q, utf8("cell_bar_closed"@), c) == (Palette { cell_bar_closed: c, ..q }),
{
    lemma_keys();
    reveal(keys_known);
    lemma_apart("cell_bar_closed"@, 719598877);
}

pub proof fn lemma_set_delete_text(q: Palette, c: Color)
    ensures
        keyed("delete_text"@, 8943677),
        palette_set(q, utf8("delete_text"@), c) == (Palette { delete_text: c, ..q }),
{
    lemma_keys();
    reveal(keys_known);
    lemma_apart("delete_text"@, 8943677);
}

pub proof fn lemma_set_delete_hover_bg(q: Palette, c: Color)
    ensures
        keyed("delete_hover_bg"@, 724421512),
        palette_set(q, utf8("delete_hover_bg"@), c) == (Palette { delete_hover_bg: c, ..q }),
{
    lemma_keys();
    reveal(keys_known);
    lemma_apart("delete_hover_bg"@, 724421512);
}

pub proof fn lemma_set_menu_border(q: Palette, c: Color)
    ensures
        keyed("menu_border"@, 9508368),
        palette_set(q, utf8("menu_border"@), c) == (Palette { menu_border: c, ..q }),
{
    lemma_keys();
    reveal(keys_known);
    lemma_apart("menu_border"@, 9508368);
}

pub proof fn lemma_set_panel_border_warm(q: Palette, c: Color)
    ensures
        keyed("panel_border_warm"@, 6983506369),
        palette_set(q, utf8("panel_border_warm"@), c) == (Palette { panel_border_warm: c, ..q }),
{
    lemma_keys();
    reveal(keys_known);
    lemma_apart("panel_border_warm"@, 6983506369);
}

pub proof fn lemma_set_divider_pane(q: Palette, c: Color)
    ensures
        keyed("divider_pane"@, 27258398),
        palette_set(q, utf8("divider_pane"@), c) == (Palette { divider_pane: c, ..q }),
{
    lemma_keys();
    reveal(keys_known);
    lemma_apart("divider_pane"@, 27258398);
}

pub proof fn lemma_set_divider_pane_hover(q: Palette, c: Color)
    ensures
        keyed("divider_pane_hover"@, 19871408127),
        palette_set(q, utf8("divider_pane_hover"@), c) == (Palette { divider_pane_hover: c, ..q }),
{
    lemma_keys();
    reveal(keys_known);
    lemma_apart("divider_pane_hover"@, 19871408127);
}

pub proof fn lemma_set_hairline_divider(q: Palette, c: Color)
    ensures
        keyed("hairline_divider"@, 2212702212),
        palette_set(q, utf8("hairline_divider"@), c) == (Palette { hairline_divider: c, ..q }),
{
    lemma_keys();
    reveal(keys_known);
    lemma_apart("hairline_divider"@, 2212702212);
}

pub proof fn lemma_set_hover_faint(q: Palette, c: Color)
    ensures
        keyed("hover_faint"@, 9439457),
        palette_set(q, utf8("hover_faint"@), c) == (Palette { hover_faint: c, ..q }),
{
    lemma_keys();
    reveal(keys_known);
    lemma_apart("hover_faint"@, 9439457);
}

pub proof fn lemma_set_button_border_faint(q: Palette, c: Color)
    ensures
        keyed("button_border_faint"@, 60518425982),
        palette_set(q, utf8("button_border_faint"@), c) == (Palette { button_border_faint: c, ..q }),
{
    lemma_keys();
    reveal(keys_known);
    lemma_apart("button_border_faint"@, 60518425982);
}

pub proof fn lemma_set_toggle_off_bg(q: Palette, c: Color)
    ensures
        keyed("toggle_off_bg"@, 90457840),
        palette_set(q, utf8("toggle_off_bg"@), c) == (Palette { toggle_off_bg: c, ..q }),
{
    lemma_keys();
    reveal(keys_known);
    lemma_apart("toggle_off_bg"@, 90457840);
}

pub proof fn lemma_set_toggle_inactive_bg(q: Palette, c: Color)
    ensures
        keyed("toggle_inactive_bg"@, 21981061378),
        palette_set(q, utf8("toggle_inactive_bg"@), c) == (Palette { toggle_inactive_bg: c, ..q }),
{
    lemma_keys();
    reveal(keys_known);
    lemma_apart("toggle_inactive_bg"@, 21981061378);
}

pub proof fn lemma_set_heading_rule(q: Palette, c: Color)
    ensures
        keyed("heading_rule"@, 27299693),
        palette_set(q, utf8("heading_rule"@), c) == (Palette { heading_rule: c, ..q }),
{
    lemma_keys();
    reveal(keys_known);
    lemma_apart("heading_rule"@, 27299693);
}

pub proof fn lemma_set_shadow_soft(q: Palette, c: Color)
    ensures
        keyed("shadow_soft"@, 9814841),
        palette_set(q, utf8("shadow_soft"@), c) == (Palette { shadow_soft: c, ..q }),
{
    lemma_keys();
    reveal(keys_known);
    lemma_apart("shadow_soft"@, 9814841);
}

pub proof fn lemma_set_shadow_menu(q: Palette, c: Color)
    ensures
        keyed("shadow_menu"@, 9814614),
        palette_set(q, utf8("shadow_menu"@), c) == (Palette { shadow_menu: c, ..q }),
{
    lemma_keys();
    reveal(keys_known);
    lemma_apart("shadow_menu"@, 9814614);
}

pub proof fn lemma_set_grid_stripe(q: Palette, c: Color)
    ensures
        keyed("grid_stripe"@, 9344570),
        palette_set(q, utf8("grid_stripe"@), c) == (Palette { grid_stripe: c, ..q }),
{
    lemma_keys();
    reveal(keys_known);
    lemma_apart("grid_stripe"@, 9344570);
}

pub proof fn lemma_set_grid_divider(q: Palette, c: Color)
    ensures
        keyed("grid_divider"@, 28020432),
        palette_set(q, utf8("grid_divider"@), c) == (Palette { grid_divider: c, ..q }),
{
    lemma_keys();
    reveal(keys_known);
    lemma_apart("grid_divider"@, 28020432);
}

pub proof fn lemma_set_dark_alpha_base(q: Palette, c: Color)
    ensures
        keyed("dark_alpha_base"@, 721068719),
        palette_set(q, utf8("dark_alpha_base"@), c) == (Palette { dark_alpha_base: c, ..q }),
{
    lemma_keys();
    reveal(keys_known);
    lemma_apart("dark_alpha_base"@, 721068719);
}

} // verus!
