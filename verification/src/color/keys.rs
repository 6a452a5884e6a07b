//! The keys of a palette, told apart.
use vstd::prelude::*;
use vstd::utf8::*;

use crate::color::reading::{code, keyed, letters};

verus! {

pub proof fn lemma_key_bg_page()
    ensures
        keyed("bg_page"@, 108473),
{
    reveal(keyed);
    reveal_strlit("bg_page");
    reveal_with_fuel(letters, 8);
    reveal_with_fuel(code, 8);
}

pub proof fn lemma_key_bg_panel()
    ensures
        keyed("bg_panel"@, 325590),
{
    reveal(keyed);
    reveal_strlit("bg_panel");
    reveal_with_fuel(letters, 9);
    reveal_with_fuel(code, 9);
}

pub proof fn lemma_key_bg_card()
    ensures
        keyed("bg_card"@, 108154),
{
    reveal(keyed);
    reveal_strlit("bg_card");
    reveal_with_fuel(letters, 8);
    reveal_with_fuel(code, 8);
}

pub proof fn lemma_key_text_primary()
    ensures
        keyed("text_primary"@, 29965936),
{
    reveal(keyed);
    reveal_strlit("text_primary");
    reveal_with_fuel(letters, 13);
    reveal_with_fuel(code, 13);
}

pub proof fn lemma_key_text_menu_row()
    ensures
        keyed("text_menu_row"@, 89883668),
{
    reveal(keyed);
    reveal_strlit("text_menu_row");
    reveal_with_fuel(letters, 14);
    reveal_with_fuel(code, 14);
}

pub proof fn lemma_key_text_muted_grey()
    ensures
        keyed("text_muted_grey"@, 809059285),
{
    reveal(keyed);
    reveal_strlit("text_muted_grey");
    reveal_with_fuel(letters, 16);
    reveal_with_fuel(code, 16);
}

pub proof fn lemma_key_text_muted_warm_deep()
    ensures
        keyed("text_muted_warm_deep"@, 196601492332),
{
    reveal(keyed);
    reveal_strlit("text_muted_warm_deep");
    reveal_with_fuel(letters, 21);
    reveal_with_fuel(code, 21);
}

pub proof fn lemma_key_text_muted_warm()
    ensures
        keyed("text_muted_warm"@, 809059591),
{
    reveal(keyed);
    reveal_strlit("text_muted_warm");
    reveal_with_fuel(letters, 16);
    reveal_with_fuel(code, 16);
}

pub proof fn lemma_key_text_muted_warm_soft()
    ensures
        keyed("text_muted_warm_soft"@, 196601492834),
{
    reveal(keyed);
    reveal_strlit("text_muted_warm_soft");
    reveal_with_fuel(letters, 21);
    reveal_with_fuel(code, 21);
}

pub proof fn lemma_key_text_section_header()
    ensures
        keyed("text_section_header"@, 65532947097),
{
    reveal(keyed);
    reveal_strlit("text_section_header");
    reveal_with_fuel(letters, 20);
    reveal_with_fuel(code, 20);
}

pub proof fn lemma_key_sidebar_text_primary()
    ensures
        keyed("sidebar_text_primary"@, 193733301703),
{
    reveal(keyed);
    reveal_strlit("sidebar_text_primary");
    reveal_with_fuel(letters, 21);
    reveal_with_fuel(code, 21);
}

pub proof fn lemma_key_sidebar_section_header()
    ensures
        keyed("sidebar_section_header"@, 1743594574026),
{
    reveal(keyed);
    reveal_strlit("sidebar_section_header");
    reveal_with_fuel(letters, 23);
    reveal_with_fuel(code, 23);
}

pub proof fn lemma_key_pane_header_bg()
    ensures
        keyed("pane_header_bg"@, 258444712),
{
    reveal(keyed);
    reveal_strlit("pane_header_bg");
    reveal_with_fuel(letters, 15);
    reveal_with_fuel(code, 15);
}

pub proof fn lemma_key_text_selection_view()
    ensures
        keyed("text_selection_view"@, 65533572710),
{
    reveal(keyed);
    reveal_strlit("text_selection_view");
    reveal_with_fuel(letters, 20);
    reveal_with_fuel(code, 20);
}

pub proof fn lemma_key_text_selection_edit()
    ensures
        keyed("text_selection_edit"@, 65533572215),
{
    reveal(keyed);
    reveal_strlit("text_selection_edit");
    reveal_with_fuel(letters, 20);
    reveal_with_fuel(code, 20);
}

pub proof fn lemma_key_bullet_marker()
    ensures
        keyed("bullet_marker"@, 82334883),
{
    reveal(keyed);
    reveal_strlit("bullet_marker");
    reveal_with_fuel(letters, 14);
    reveal_with_fuel(code, 14);
}

pub proof fn lemma_key_text_ghost()
    ensures
        keyed("text_ghost"@, 3328589),
{
    reveal(keyed);
    reveal_strlit("text_ghost");
    reveal_with_fuel(letters, 11);
    reveal_with_fuel(code, 11);
}

pub proof fn lemma_key_text_disabled()
    ensures
        keyed("text_disabled"@, 89866474),
{
    reveal(keyed);
    reveal_strlit("text_disabled");
    reveal_with_fuel(letters, 14);
    reveal_with_fuel(code, 14);
}

pub proof fn lemma_key_text_ghost_warm()
    ensures
        keyed("text_ghost_warm"@, 808859359),
{
    reveal(keyed);
    reveal_strlit("text_ghost_warm");
    reveal_with_fuel(letters, 16);
    reveal_with_fuel(code, 16);
}

pub proof fn lemma_key_link_text()
    ensures
        keyed("link_text"@, 1056626),
{
    reveal(keyed);
    reveal_strlit("link_text");
    reveal_with_fuel(letters, 10);
    reveal_with_fuel(code, 10);
}

pub proof fn lemma_key_poppop_output()
    ensures
        keyed("poppop_output"@, 89086220),
{
    reveal(keyed);
    reveal_strlit("poppop_output");
    reveal_with_fuel(letters, 14);
    reveal_with_fuel(code, 14);
}

pub proof fn lemma_key_poppop_comment()
    ensures
        keyed("poppop_comment"@, 267247760),
{
    reveal(keyed);
    reveal_strlit("poppop_comment");
    reveal_with_fuel(letters, 15);
    reveal_with_fuel(code, 15);
}

pub proof fn lemma_key_poppop_error()
    ensures
        keyed("poppop_error"@, 29694453),
{
    reveal(keyed);
    reveal_strlit("poppop_error");
    reveal_with_fuel(letters, 13);
    reveal_with_fuel(code, 13);
}

pub proof fn lemma_key_accent_blue()
    ensures
        keyed("accent_blue"@, 8666939),
{
    reveal(keyed);
    reveal_strlit("accent_blue");
    reveal_with_fuel(letters, 12);
    reveal_with_fuel(code, 12);
}

pub proof fn lemma_key_accent_blue_selection()
    ensures
        keyed("accent_blue_selection"@, 511777042112),
{
    reveal(keyed);
    reveal_strlit("accent_blue_selection");
    reveal_with_fuel(letters, 22);
    reveal_with_fuel(code, 22);
}

pub proof fn lemma_key_accent_blue_pane_border()
    ensures
        keyed("accent_blue_pane_border"@, 4605993129855),
{
    reveal(keyed);
    reveal_strlit("accent_blue_pane_border");
    reveal_with_fuel(letters, 24);
    reveal_with_fuel(code, 24);
}

pub proof fn lemma_key_accent_blue_focus_edit()
    ensures
        keyed("accent_blue_focus_edit"@, 1535330930129),
{
    reveal(keyed);
    reveal_strlit("accent_blue_focus_edit");
    reveal_with_fuel(letters, 23);
    reveal_with_fuel(code, 23);
}

pub proof fn lemma_key_embed_border()
    ensures
        keyed("embed_border"@, 27244938),
{
    reveal(keyed);
    reveal_strlit("embed_border");
    reveal_with_fuel(letters, 13);
    reveal_with_fuel(code, 13);
}

pub proof fn lemma_key_embed_tint()
    ensures
        keyed("embed_tint"@, 3027605),
{
    reveal(keyed);
    reveal_strlit("embed_tint");
    reveal_with_fuel(letters, 11);
    reveal_with_fuel(code, 11);
}

pub proof fn lemma_key_embed_hover()
    ensures
        keyed("embed_hover"@, 9082146),
{
    reveal(keyed);
    reveal_strlit("embed_hover");
    reveal_with_fuel(letters, 12);
    reveal_with_fuel(code, 12);
}

pub proof fn lemma_key_cell_bar_default()
    ensures
        keyed("cell_bar_default"@, 2158794728),
{
    reveal(keyed);
    reveal_strlit("cell_bar_default");
    reveal_with_fuel(letters, 17);
    reveal_with_fuel(code, 17);
}

pub proof fn lemma_key_cell_bar_snoozed()
    ensures
        keyed("cell_bar_snoozed"@, 2158808965),
{
    reveal(keyed);
    reveal_strlit("cell_bar_snoozed");
    reveal_with_fuel(letters, 17);
    reveal_with_fuel(code, 17);
}

pub proof fn lemma_key_cell_bar_resurfaced()
    ensures
        keyed("cell_bar_resurfaced"@, 58287775795),
{
    reveal(keyed);
    reveal_strlit("cell_bar_resurfaced");
    reveal_with_fuel(letters, 20);
    reveal_with_fuel(code, 20);
}

pub proof fn lemma_key_cell_bar_closed()
    ensures
        keyed("cell_bar_closed"@, 719598877),
{
    reveal(keyed);
    reveal_strlit("cell_bar_closed");
    reveal_with_fuel(letters, 16);
    reveal_with_fuel(code, 16);
}

pub proof fn lemma_key_delete_text()
    ensures
        keyed("delete_text"@, 8943677),
{
    reveal(keyed);
    reveal_strlit("delete_text");
    reveal_with_fuel(letters, 12);
    reveal_with_fuel(code, 12);
}

pub proof fn lemma_key_delete_hover_bg()
    ensures
        keyed("delete_hover_bg"@, 724421512),
{
    reveal(keyed);
    reveal_strlit("delete_hover_bg");
    reveal_with_fuel(letters, 16);
    reveal_with_fuel(code, 16);
}

pub proof fn lemma_key_menu_border()
    ensures
        keyed("menu_border"@, 9508368),
{
    reveal(keyed);
    reveal_strlit("menu_border");
    reveal_with_fuel(letters, 12);
    reveal_with_fuel(code, 12);
}

pub proof fn lemma_key_panel_border_warm()
    ensures
        keyed("panel_border_warm"@, 6983506369),
{
    reveal(keyed);
    reveal_strlit("panel_border_warm");
    reveal_with_fuel(letters, 18);
    reveal_with_fuel(code, 18);
}

pub proof fn lemma_key_divider_pane()
    ensures
        keyed("divider_pane"@, 27258398),
{
    reveal(keyed);
    reveal_strlit("divider_pane");
    reveal_with_fuel(letters, 13);
    reveal_with_fuel(code, 13);
}

pub proof fn lemma_key_divider_pane_hover()
    ensures
        keyed("divider_pane_hover"@, 19871408127),
{
    reveal(keyed);
    reveal_strlit("divider_pane_hover");
    reveal_with_fuel(letters, 19);
    reveal_with_fuel(code, 19);
}

pub proof fn lemma_key_hairline_divider()
    ensures
        keyed("hairline_divider"@, 2212702212),
{
    reveal(keyed);
    reveal_strlit("hairline_divider");
    reveal_with_fuel(letters, 17);
    reveal_with_fuel(code, 17);
}

pub proof fn lemma_key_hover_faint()
    ensures
        keyed("hover_faint"@, 9439457),
{
    reveal(keyed);
    reveal_strlit("hover_faint");
    reveal_with_fuel(letters, 12);
    reveal_with_fuel(code, 12);
}

pub proof fn lemma_key_button_border_faint()
    ensures
        keyed("button_border_faint"@, 60518425982),
{
    reveal(keyed);
    reveal_strlit("button_border_faint");
    reveal_with_fuel(letters, 20);
    reveal_with_fuel(code, 20);
}

pub proof fn lemma_key_toggle_off_bg()
    ensures
        keyed("toggle_off_bg"@, 90457840),
{
    reveal(keyed);
    reveal_strlit("toggle_off_bg");
    reveal_with_fuel(letters, 14);
    reveal_with_fuel(code, 14);
}

pub proof fn lemma_key_toggle_inactive_bg()
    ensures
        keyed("toggle_inactive_bg"@, 21981061378),
{
    reveal(keyed);
    reveal_strlit("toggle_inactive_bg");
    reveal_with_fuel(letters, 19);
    reveal_with_fuel(code, 19);
}

pub proof fn lemma_key_heading_rule()
    ensures
        keyed("heading_rule"@, 27299693),
{
    reveal(keyed);
    reveal_strlit("heading_rule");
    reveal_with_fuel(letters, 13);
    reveal_with_fuel(code, 13);
}

pub proof fn lemma_key_shadow_soft()
    ensures
        keyed("shadow_soft"@, 9814841),
{
    reveal(keyed);
    reveal_strlit("shadow_soft");
    reveal_with_fuel(letters, 12);
    reveal_with_fuel(code, 12);
}

pub proof fn lemma_key_shadow_menu()
    ensures
        keyed("shadow_menu"@, 9814614),
{
    reveal(keyed);
    reveal_strlit("shadow_menu");
    reveal_with_fuel(letters, 12);
    reveal_with_fuel(code, 12);
}

pub proof fn lemma_key_grid_stripe()
    ensures
        keyed("grid_stripe"@, 9344570),
{
    reveal(keyed);
    reveal_strlit("grid_stripe");
    reveal_with_fuel(letters, 12);
    reveal_with_fuel(code, 12);
}

pub proof fn lemma_key_grid_divider()
    ensures
        keyed("grid_divider"@, 28020432),
{
    reveal(keyed);
    reveal_strlit("grid_divider");
    reveal_with_fuel(letters, 13);
    reveal_with_fuel(code, 13);
}

pub proof fn lemma_key_dark_alpha_base()
    ensures
        keyed("dark_alpha_base"@, 721068719),
{
    reveal(keyed);
    reveal_strlit("dark_alpha_base");
    reveal_with_fuel(letters, 16);
    reveal_with_fuel(code, 16);
}

} // verus!
