use kept::cell::common::{
    epoch_ms, is_kept_tag_url, now_epoch_ms, tag_name_from_url, tag_url, transform_index, Affinity, Key, KeyEvent,
    LinkSpan, Modifiers, Selection, Selections,
};
use kept::cell::model::Click;
use kept::cell::outline::{Bullet, OutlineCell};
use kept::cell::spots::Spot;
use kept::cell::reference::{EmbeddedReference, ReferenceTarget};
use kept::cell::table::TableCell;
use kept::cell::textbox::TextBox;
use kept::cell::urls::detect_urls;
use kept::cell::wrap::{find_word_at, line_runs, step_horizontal, RunStyle};
use kept::cell::{Cell, CellKind};
use kept::ids::new_id;

const NOW: u64 = 1_000;
const LATER: u64 = 60_000_000_000;

const NONE: Modifiers = Modifiers { shift: false, control: false, alt: false, logo: false, mac: false };

fn press(key: Key) -> KeyEvent {
    KeyEvent { pressed: true, key, text: None }
}

fn type_text(tb: &mut TextBox, s: &str, now: u64) {
    let event = KeyEvent { pressed: true, key: Key::Other, text: Some(s.to_string()) };
    tb.handle_key(&event, NONE, now);
}

#[test]
fn redo_takes_back_undo() {
    let mut tb = TextBox::new("one".to_string());
    tb.set_caret_at(3);
    tb.insert_text(" two", NOW);
    assert_eq!(tb.text(), "one two");
    assert!(tb.undo());
    assert_eq!(tb.text(), "one");
    assert!(tb.redo());
    assert_eq!(tb.text(), "one two");
    assert!(!tb.redo());
}

#[test]
fn typing_in_a_row_is_one_step() {
    let mut tb = TextBox::new(String::new());
    type_text(&mut tb, "a", NOW);
    type_text(&mut tb, "b", NOW + 1);
    assert_eq!(tb.text(), "ab");
    assert!(tb.undo());
    assert_eq!(tb.text(), "");
    assert!(!tb.undo());
}

#[test]
fn a_pause_or_a_caret_starts_another_step() {
    let mut tb = TextBox::new(String::new());
    type_text(&mut tb, "a", NOW);
    type_text(&mut tb, "b", NOW + LATER);
    assert!(tb.undo());
    assert_eq!(tb.text(), "a");
    assert!(tb.undo());
    assert_eq!(tb.text(), "");
}

#[test]
fn characters_are_deleted_whole() {
    let mut tb = TextBox::new("aé".to_string());
    tb.set_caret_at(3);
    tb.backspace(NOW);
    assert_eq!(tb.text(), "a");
    tb.set_caret_at(0);
    tb.forward_delete(NOW);
    assert_eq!(tb.text(), "");
    tb.forward_delete(NOW);
    assert_eq!(tb.text(), "");
}

#[test]
fn words_are_deleted_whole() {
    let mut tb = TextBox::new("one two".to_string());
    tb.set_caret_at(7);
    tb.word_backspace(NOW);
    assert_eq!(tb.text(), "one ");
    tb.set_caret_at(0);
    tb.word_forward_delete(NOW);
    assert_eq!(tb.text(), " ");
}

#[test]
fn a_double_click_takes_a_word_and_a_third_the_line() {
    let mut tb = TextBox::new("one two\nthree".to_string());
    let never = |_a: usize, _b: usize| false;
    tb.rewrap(&never);
    let click = Click { idx: 5, affinity: Affinity::Downstream, near: true, now: NOW };
    tb.mouse_down(click, NONE, true);
    assert_eq!(tb.primary_caret(), Some((5, 5)));
    tb.mouse_up();
    tb.mouse_down(click, NONE, true);
    assert_eq!(tb.copy_primary_selection(), "two");
    tb.mouse_up();
    tb.mouse_down(click, NONE, true);
    assert!(tb.copy_primary_selection().starts_with("one two"));
}

#[test]
fn arrows_move_by_characters() {
    let mut tb = TextBox::new("aé".to_string());
    tb.set_caret_at(0);
    tb.handle_key(&press(Key::ArrowRight), NONE, NOW);
    tb.handle_key(&press(Key::ArrowRight), NONE, NOW);
    assert_eq!(tb.primary_caret(), Some((3, 3)));
    tb.handle_key(&press(Key::ArrowLeft), NONE, NOW);
    assert_eq!(tb.primary_caret(), Some((1, 1)));
}

#[test]
fn selections_that_touch_become_one() {
    let sel = |anchor: usize, head: usize| Selection { anchor, head, affinity: Affinity::Downstream };
    let mut s = Selections { items: vec![sel(6, 9), sel(0, 4), sel(3, 5)], primary: 0 };
    s.normalize();
    assert_eq!(s.items.len(), 2);
    assert_eq!(s.items[0].range(), 0..5);
    assert_eq!(s.items[1].range(), 6..9);
    assert_eq!(s.primary, 1);
}

#[test]
fn indices_follow_an_edit() {
    assert_eq!(transform_index(2, 5, 1, 4), 2);
    assert_eq!(transform_index(9, 5, 1, 4), 12);
    assert_eq!(transform_index(6, 5, 3, 0), 5);
}

#[test]
fn tag_addresses_name_a_tag() {
    assert_eq!(tag_url("work"), "kept-tag://work");
    assert!(is_kept_tag_url("kept-tag://work"));
    assert!(!is_kept_tag_url("https://work"));
    assert_eq!(tag_name_from_url("kept-tag://work"), Some("work"));
    assert_eq!(tag_name_from_url("https://work"), None);
}

#[test]
fn tags_that_are_removed_are_gone() {
    let mut tb = TextBox::new("see #one and #two".to_string());
    tb.migrate_tags_from_text();
    assert_eq!(tb.all_tag_names(), vec!["one", "two"]);
    tb.migrate_tags_from_text();
    assert_eq!(tb.tags().len(), 2);
    assert!(tb.remove_tags_named("one"));
    assert_eq!(tb.all_tag_names(), vec!["two"]);
    assert!(!tb.remove_tags_named("one"));
}

#[test]
fn addresses_in_a_text_are_found() {
    let found = detect_urls("at https://a.b/c, or http://d.e.");
    let urls: Vec<&str> = found.iter().map(|l| l.url.as_str()).collect();
    assert_eq!(urls, vec!["https://a.b/c", "http://d.e"]);
    assert_eq!(found[0].range, 3..16);
    assert!(detect_urls("none here").is_empty());
}

#[test]
fn runs_follow_the_links_of_a_line() {
    let links = vec![LinkSpan { range: 2..4, url: "https://x/".to_string() }];
    let runs = line_runs(&(0..6), &links);
    let spans: Vec<(usize, usize, bool)> =
        runs.iter().map(|r| (r.range.start, r.range.end, r.style == RunStyle::Link)).collect();
    assert_eq!(spans, vec![(0, 2, false), (2, 4, true), (4, 6, false)]);
}

#[test]
fn words_are_runs_of_one_kind_of_character() {
    assert_eq!(find_word_at("one two", 1), 0..3);
    assert_eq!(find_word_at("one two", 5), 4..7);
    assert_eq!(find_word_at("naïve x", 3), 0..6);
}

#[test]
fn at_a_wrap_the_caret_has_two_sides() {
    let lines = vec![0..3, 3..6];
    let (at, side) = step_horizontal("abcdef", &lines, 2, Affinity::Downstream, 1);
    assert_eq!((at, side), (3, Affinity::Upstream));
    let (at, side) = step_horizontal("abcdef", &lines, 3, Affinity::Upstream, 1);
    assert_eq!((at, side), (3, Affinity::Downstream));
}

#[test]
fn enter_splits_a_bullet_and_backspace_joins_it_again() {
    let mut oc = OutlineCell::from_bullets(vec![Bullet::new(new_id(), TextBox::new("onetwo".to_string()), 0)]);
    oc.place_caret_at_start();
    for _ in 0..3 {
        oc.handle_key(&press(Key::ArrowRight), NONE, NOW);
    }
    oc.handle_key(&press(Key::Enter), NONE, NOW);
    assert_eq!(oc.full_text(), "one\ntwo");
    assert_eq!(oc.bullets().len(), 2);
    oc.handle_key(&press(Key::Backspace), NONE, NOW);
    assert_eq!(oc.bullets().len(), 1);
    assert_eq!(oc.bullets()[0].textbox().text(), "onetwo");
}

#[test]
fn a_closed_bullet_closes_what_is_below_it() {
    let ids = [new_id(), new_id(), new_id()];
    let depths = [0, 1, 0];
    let bullets = (0..3)
        .map(|i| Bullet::new(ids[i], TextBox::new(format!("b{}", i)), depths[i]))
        .collect();
    let mut oc = OutlineCell::from_bullets(bullets);
    assert_eq!(oc.compute_effective_open(), vec![true, true, true]);
    assert!(oc.set_bullet_closed_at(ids[0], Some(5)));
    assert_eq!(oc.compute_effective_open(), vec![false, false, true]);
    assert_eq!(oc.subtree_range(ids[0]), Some(0..2));
    assert_eq!(oc.subtree_range(new_id()), None);
    assert!(!oc.set_bullet_closed_at(new_id(), None));
}

#[test]
fn a_restored_outline_is_as_it_was() {
    let mut oc = OutlineCell::new();
    let id = oc.bullets()[0].id();
    oc.replace_in_bullet_with_text(id, 0..0, "before".to_string(), NOW);
    let snap = oc.snapshot();
    oc.replace_in_bullet_with_text(id, 0..6, "after".to_string(), NOW);
    assert_eq!(oc.full_text(), "after");
    oc.restore(snap);
    assert_eq!(oc.full_text(), "before");
    assert_eq!(oc.bullets()[0].id(), id);
}

#[test]
fn tab_walks_through_a_table_and_back() {
    let mut t = TableCell::with_dimensions(2, 2);
    assert_eq!(t.focused_index(), (0, 0));
    assert!(t.step_focus(true));
    assert_eq!(t.focused_index(), (0, 1));
    assert!(t.step_focus(true));
    assert_eq!(t.focused_index(), (1, 0));
    assert!(t.step_focus(false));
    assert_eq!(t.focused_index(), (0, 1));
}

#[test]
fn a_restored_cell_is_as_it_was() {
    let mut cell = Cell::new("body".to_string());
    cell.closed_at = Some(7);
    let snap = cell.snapshot();
    cell.closed_at = None;
    cell.set_title(Some(TextBox::new("late".to_string())));
    assert!(!cell.snapshot().doc_eq(&snap));
    cell.restore(snap);
    assert_eq!(cell.closed_at, Some(7));
    assert!(cell.title().is_none());
    assert_eq!(cell.full_text(), "body");
}

#[test]
fn a_fresh_preview_is_current() {
    let source = Cell::new("source".to_string());
    let mut e = EmbeddedReference::new(ReferenceTarget::WholeCell(source.id));
    let copy = Cell::new("source".to_string());
    e.install_cache(Some(copy), Some(source.edited_at));
    assert!(!e.cache_is_stale_for(Some(source.edited_at)));
    assert!(e.cache_is_stale_for(Some(source.edited_at + 1)));
}

#[test]
fn titles_get_the_tags_that_they_spell() {
    let mut cell = Cell::new("body #inner".to_string());
    let mut title = TextBox::new("Plan #work #home".to_string());
    title.set_force_heading(true);
    cell.set_title(Some(title));
    assert_eq!(cell.heading_tag_names(), vec!["work", "home"]);
    assert_eq!(cell.heading_title(), Some("Plan".to_string()));
    cell.clear_all_selections();
    assert!(!cell.has_any_selection());
}

#[test]
fn empty_titles_are_dropped() {
    let mut cell = Cell::new("body".to_string());
    assert!(cell.toggle_title_focus());
    assert!(cell.title().is_some());
    cell.unfocus_title_drop_if_empty();
    assert!(cell.title().is_none());
}

#[test]
fn the_clock_counts_from_the_epoch() {
    assert_eq!(epoch_ms(None), 0);
    assert_eq!(epoch_ms(Some(12)), 12);
    assert!(now_epoch_ms() > 1_600_000_000_000);
}

#[test]
fn text_is_printed_into_the_kind_of_cell() {
    let cell = Cell::new_poppop();
    assert!(matches!(cell.kind, CellKind::PopPop(_)));
    assert!(cell.is_empty());
}

#[test]
fn a_tag_of_a_table_is_followed_once() {
    let mut t = TableCell::with_dimensions(2, 2);
    if let Some(e) = t.cell_at_mut(1, 0) {
        e.textbox.replace_text("see #work".to_string(), NOW);
        e.textbox.migrate_tags_from_text();
    }
    assert_eq!(t.take_pending_tag_name(), None);
    let click = Click { idx: 6, affinity: Affinity::Downstream, near: false, now: NOW };
    let follow = Modifiers { shift: false, control: true, alt: false, logo: false, mac: false };
    t.mouse_down(1, 0, click, follow, true);
    assert_eq!(t.take_pending_tag_name(), Some("work".to_string()));
    assert_eq!(t.take_pending_tag_name(), None);
}

#[test]
fn bullets_are_laid_out_on_lines() {
    let id = new_id();
    let mut oc = OutlineCell::from_bullets(vec![Bullet::new(id, TextBox::new("one two three".to_string()), 0)]);
    let too_wide = |from: usize, to: usize| to - from > 7;
    oc.rewrap_bullet(id, &too_wide);
    assert_eq!(oc.bullets()[0].textbox().visual_line_count(), 2);
    oc.rewrap_bullet(new_id(), &too_wide);
    assert_eq!(oc.bullets()[0].textbox().text(), "one two three");
}

#[test]
fn keys_leave_the_focus_on_a_bullet() {
    let mut o = OutlineCell::new();
    let keys = [Key::Enter, Key::Tab, Key::ArrowUp, Key::Backspace, Key::ArrowDown, Key::Delete];
    for (i, key) in keys.iter().cycle().take(60).enumerate() {
        let mods = Modifiers { shift: i % 7 == 3, ..NONE };
        o.handle_key(&press(*key), mods, i as u64);
        assert!(!o.bullets().is_empty());
        assert!(o.focused_textbox().is_some());
    }
}

#[test]
fn carets_that_meet_become_one() {
    let mut tb = TextBox::new("abc".to_string());
    let first = Click { idx: 1, affinity: Affinity::Downstream, near: false, now: 0 };
    let alt = Modifiers { alt: true, ..NONE };
    tb.mouse_down(first, NONE, true);
    tb.mouse_up();
    tb.mouse_down(Click { idx: 2, now: 10_000_000_000, ..first }, alt, true);
    tb.mouse_up();
    tb.handle_key(&press(Key::Backspace), NONE, 20_000_000_000);
    assert_eq!(tb.text(), "c");
    type_text(&mut tb, "x", 30_000_000_000);
    assert_eq!(tb.text(), "xc");
}

#[test]
fn a_drag_stays_with_the_text_that_it_began_in() {
    let mut cell = Cell::new("body text".to_string());
    cell.set_title(Some(TextBox::new("head".to_string())));
    let at = |idx: usize| Click { idx, affinity: Affinity::Downstream, near: false, now: 0 };
    cell.mouse_down(&Spot::Text(at(0)), NONE, true);
    assert!(cell.holds_drag(&Spot::Text(at(4))));
    assert!(!cell.holds_drag(&Spot::Title(at(0))));
    assert!(!cell.mouse_drag_to(&Spot::Title(at(2))));
    assert!(cell.mouse_drag_to(&Spot::Text(at(4))));
    assert_eq!(cell.copy_text(), "body");
    cell.mouse_up();
    assert!(!cell.holds_drag(&Spot::Text(at(4))));
}
