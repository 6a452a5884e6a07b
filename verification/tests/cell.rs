use kept::cell::common::{is_kept_tag_url, LinkSpan};
use kept::cell::poppop::PopPopCell;
use kept::cell::outline::{Bullet, BulletSnapshot, OutlineCell, OutlineSnapshot};
use kept::cell::reference::{ReferenceCell, ReferenceTarget};
use kept::cell::table::TableCell;
use kept::cell::textbox::TextBox;
use kept::cell::{Cell, CellKind};
use kept::ids::{new_id, Uuid};

const NOW: u64 = 1_000;

#[test]
fn outline_split_preserves_suffix_link() {
    let mut tb = TextBox::new("head | LINK".to_string());
    tb.add_link(7..11, "https://example.com/".to_string());
    tb.set_caret_at(5);
    let mut oc = OutlineCell::from_bullets(
        vec![Bullet::new(new_id(), tb, 0)],
    );
    oc.split_focused(NOW);
    let bullets = oc.bullets();
    assert_eq!(bullets.len(), 2);
    assert_eq!(bullets[0].textbox().text(), "head ");
    assert!(bullets[0].textbox().links().is_empty());
    assert_eq!(bullets[1].textbox().text(), "| LINK");
    let new_links = bullets[1].textbox().links();
    assert_eq!(new_links.len(), 1, "suffix link rebased onto new bullet");
    assert_eq!(new_links[0].range, 2..6);
}

#[test]
fn clone_for_cache_preserves_links_and_tags_on_textbox() {
    let mut tb = TextBox::new("Patrick #person and link".to_string());
    tb.set_force_heading(true);
    tb.set_font_scale(1.25f32.to_bits());
    tb.add_link(20..24, "https://example.com/".to_string());
    tb.add_tag(8..15);

    let cloned = tb.clone_for_cache(1.0f32.to_bits());
    assert_eq!(cloned.text(), "Patrick #person and link");
    assert_eq!(cloned.font_scale(), 1.0f32.to_bits(), "scale override applies");
    let cloned_links = cloned.links();
    assert_eq!(cloned_links.len(), 2, "link + tag spans survive the clone");
    let tag = cloned_links
        .iter()
        .find(|l| is_kept_tag_url(&l.url))
        .expect("tag link present");
    assert_eq!(tag.range, 8..15);
    assert_eq!(tag.url, "kept-tag://person");
    let external = cloned_links
        .iter()
        .find(|l| !is_kept_tag_url(&l.url))
        .expect("external link present");
    assert_eq!(external.range, 20..24);
}

#[test]
fn paste_with_links_applies_explicit_spans() {
    let mut tb = TextBox::new(String::new());
    let url = "https://example.com/".to_string();
    let span = LinkSpan { range: 6..11, url: url.clone() };
    tb.paste_with_links("hello world", &vec![span], NOW);
    let links = tb.links();
    assert_eq!(links.len(), 1, "explicit link span survived paste");
    assert_eq!(links[0].url, url);
    assert_eq!(&tb.text()[links[0].range.clone()], "world");
}

#[test]
fn paste_with_links_falls_back_to_url_autodetect_when_empty() {
    let mut tb = TextBox::new(String::new());
    tb.paste_with_links("visit https://example.com/ today", &vec![], NOW);
    let links = tb.links();
    assert_eq!(
        links.len(),
        1,
        "URL in plain text must auto-linkify even via paste_with_links"
    );
    assert_eq!(links[0].url, "https://example.com/");
}

#[test]
fn cell_closed_at_round_trips_through_snapshot() {
    let mut cell = Cell::new("x".to_string());
    assert!(cell.is_open(), "new cells default to open");
    cell.closed_at = Some(123);

    let snap = cell.snapshot();
    assert_eq!(snap.closed_at, Some(123), "snapshot captures closed_at");

    let mut reborn = Cell::new(String::new());
    reborn.restore(snap);
    assert_eq!(reborn.closed_at, Some(123), "restore replays closed_at");
    assert!(!reborn.is_open());
}

#[test]
fn bullet_closed_at_round_trips_through_outline_snapshot() {
    let mut oc = OutlineCell::new();
    let bid = oc.bullets()[0].id();
    oc.set_bullet_closed_at(bid, Some(42));

    let snap = oc.snapshot();
    assert_eq!(
        snap.bullets[0].closed_at, Some(42),
        "BulletSnapshot carries closed_at"
    );

    let mut reborn = OutlineCell::new();
    reborn.restore(snap);
    assert_eq!(
        reborn.bullets()[0].closed_at(),
        Some(42),
        "outline restore round-trips bullet closed_at"
    );
}

#[test]
fn effective_open_cascades_through_outline_ancestors() {
    let mut oc = OutlineCell::new();
    let snap_bullets = vec![
        BulletSnapshot {
            id: new_id(),
            textbox: TextBox::new("root".to_string()).snapshot(),
            depth: 0,
            closed_at: None,
            resurface_after: None,
        },
        BulletSnapshot {
            id: new_id(),
            textbox: TextBox::new("child A".to_string()).snapshot(),
            depth: 1,
            closed_at: Some(1),
            resurface_after: None,
        },
        BulletSnapshot {
            id: new_id(),
            textbox: TextBox::new("grandchild A".to_string()).snapshot(),
            depth: 2,
            closed_at: None,
            resurface_after: None,
        },
        BulletSnapshot {
            id: new_id(),
            textbox: TextBox::new("child B".to_string()).snapshot(),
            depth: 1,
            closed_at: None,
            resurface_after: None,
        },
        BulletSnapshot {
            id: new_id(),
            textbox: TextBox::new("grandchild B".to_string()).snapshot(),
            depth: 2,
            closed_at: None,
            resurface_after: None,
        },
    ];
    let snap = OutlineSnapshot {
        bullets: snap_bullets,
        focused_bullet: new_id(),
        reference_header: None,
    };
    oc.restore(snap);

    let eff = oc.compute_effective_open();
    assert_eq!(eff.len(), 5);
    assert!(eff[0], "root open");
    assert!(!eff[1], "self-closed child A");
    assert!(!eff[2], "grandchild A closed via ancestor cascade");
    assert!(eff[3], "child B unaffected");
    assert!(eff[4], "grandchild B unaffected");
}

#[test]
fn envelope_outline_round_trips_through_snapshot() {
    let target_id = new_id();
    let mut oc = OutlineCell::with_envelope(
        ReferenceTarget::WholeCell(target_id),
    );
    let bullet_id = oc.bullets()[0].id();
    oc.replace_in_bullet_with_text(bullet_id, 0..0, "my note".to_string(), NOW);

    let snap = oc.snapshot();
    let mut reborn = OutlineCell::new();
    reborn.restore(snap);

    let header = reborn
        .reference_header()
        .expect("header restored from snapshot");
    match header.target() {
        ReferenceTarget::WholeCell(id) => assert_eq!(id, target_id),
        _ => panic!("WholeCell target should round-trip"),
    }
    assert_eq!(reborn.bullets().len(), 1);
    assert_eq!(reborn.bullets()[0].textbox().text(), "my note");
}

#[test]
fn envelope_outline_is_never_empty() {
    let target_id = new_id();
    let oc = OutlineCell::with_envelope(
        ReferenceTarget::WholeCell(target_id),
    );
    assert!(!oc.is_empty());
}

#[test]
fn clone_for_scale_preserves_envelope_header_target() {
    let target_id = new_id();
    let mut oc = OutlineCell::with_envelope(
        ReferenceTarget::WholeCell(target_id),
    );
    let bid = oc.bullets()[0].id();
    oc.replace_in_bullet_with_text(bid, 0..0, "envelope notes".to_string(), NOW);
    let kind = CellKind::Outline(oc);

    let cloned = kind
        .clone_for_scale(1.0_f32.to_bits())
        .expect("envelope outline clones");
    let CellKind::Outline(new_oc) = cloned else {
        panic!("clone_for_scale on Outline must yield Outline");
    };
    let header = new_oc
        .reference_header()
        .expect("header preserved through clone_for_scale");
    match header.target() {
        ReferenceTarget::WholeCell(id) => assert_eq!(id, target_id),
        _ => panic!("WholeCell target survives the clone"),
    }
    assert!(
        header.cache_ref().is_none(),
        "cache is left empty for `build_reference_cache` to populate"
    );
    assert_eq!(new_oc.bullets()[0].textbox().text(), "envelope notes");
}

#[test]
fn envelope_snapshot_carries_target_for_unwrap() {
    let target = ReferenceTarget::Subtree {
        cell_id: new_id(),
        bullet_id: new_id(),
    };
    let mut oc = OutlineCell::with_envelope(target);
    let bid = oc.bullets()[0].id();
    oc.replace_in_bullet_with_text(bid, 0..0, "user notes".to_string(), NOW);

    let snap = oc.snapshot();
    assert_eq!(snap.reference_header, Some(target));
    assert_eq!(snap.bullets.len(), 1);
    assert_eq!(snap.bullets[0].textbox.text, "user notes");
}

#[test]
fn outline_split_with_active_selection_replaces_it() {
    let mut tb = TextBox::new("alpha BRAVO charlie".to_string());
    tb.select_range(6, 11);
    let mut oc = OutlineCell::from_bullets(
        vec![Bullet::new(new_id(), tb, 0)],
    );
    oc.split_focused(NOW);
    let bullets = oc.bullets();
    assert_eq!(bullets.len(), 2, "split produced two bullets");
    assert_eq!(
        bullets[0].textbox().text(),
        "alpha ",
        "selected word removed from prefix bullet",
    );
    assert_eq!(
        bullets[1].textbox().text(),
        " charlie",
        "suffix bullet starts where the selection ended",
    );
}

#[test]
fn outline_bullet_link_survives_split_then_undo() {
    let mut tb = TextBox::new("before LINK after".to_string());
    tb.add_link(7..11, "https://example.com/".to_string());
    tb.set_caret_at(9);
    let bullet_id = new_id();
    let mut oc = OutlineCell::from_bullets(
        vec![Bullet::new(bullet_id, tb, 0)],
    );
    let pre = oc.snapshot();
    oc.split_focused(NOW);
    oc.restore(pre);
    let bullets = oc.bullets();
    assert_eq!(bullets.len(), 1, "single bullet restored");
    assert_eq!(bullets[0].textbox().text(), "before LINK after");
    let links = bullets[0].textbox().links();
    assert_eq!(links.len(), 1, "link restored on undo");
    assert_eq!(links[0].range, 7..11);
}

#[test]
fn typing_after_link_does_not_extend_it() {
    let mut tb = TextBox::new(String::new());
    tb.replace_with_link(0..0, "Alice".to_string(), "kept://a".to_string(), NOW);
    assert_eq!(tb.text(), "Alice");
    assert_eq!(tb.links()[0].range, 0..5);
    tb.insert_text(" hi", NOW);
    assert_eq!(tb.text(), "Alice hi");
    assert_eq!(tb.links()[0].range, 0..5);
}

#[test]
fn typing_inside_link_still_extends_it() {
    let mut tb = TextBox::new("see Alice here".to_string());
    tb.add_link(4..9, "kept://a".to_string());
    tb.set_caret_at(7);
    tb.insert_text("X", NOW);
    assert_eq!(tb.text(), "see AliXce here");
    assert_eq!(tb.links()[0].range, 4..10);
}

#[test]
fn paste_url_creates_link() {
    let mut tb = TextBox::new(String::new());
    tb.paste("https://example.com", NOW);
    assert_eq!(tb.text(), "https://example.com");
    let links = tb.links();
    assert_eq!(links.len(), 1);
    assert_eq!(links[0].range, 0..19);
    assert_eq!(links[0].url, "https://example.com");
}

#[test]
fn paste_url_inside_text_lands_at_correct_offset() {
    let mut tb = TextBox::new("before  after".to_string());
    tb.set_caret_at(7);
    tb.paste("see https://example.com here", NOW);
    assert_eq!(tb.text(), "before see https://example.com here after");
    let links = tb.links();
    assert_eq!(links.len(), 1);
    assert_eq!(links[0].range, 11..30);
    assert_eq!(links[0].url, "https://example.com");
}

#[test]
fn paste_url_trims_trailing_punctuation() {
    let mut tb = TextBox::new(String::new());
    tb.paste("Visit https://example.com.", NOW);
    assert_eq!(tb.text(), "Visit https://example.com.");
    let links = tb.links();
    assert_eq!(links.len(), 1);
    assert_eq!(links[0].range, 6..25);
    assert_eq!(links[0].url, "https://example.com");
}

#[test]
fn paste_plain_text_creates_no_links() {
    let mut tb = TextBox::new(String::new());
    tb.paste("nothing to see here", NOW);
    assert!(tb.links().is_empty());
}

#[test]
fn paste_multiple_urls_creates_multiple_links() {
    let mut tb = TextBox::new(String::new());
    tb.paste("a https://one.com b http://two.org c", NOW);
    assert_eq!(tb.links().len(), 2);
    let urls: Vec<&str> = tb.links().iter().map(|l| l.url.as_str()).collect();
    assert!(urls.contains(&"https://one.com"));
    assert!(urls.contains(&"http://two.org"));
}

#[test]
fn textbox_undo_reverts_typed_text() {
    let mut tb = TextBox::new(String::new());
    tb.insert_text("hello", NOW);
    assert_eq!(tb.text(), "hello");
    assert!(tb.undo());
    assert_eq!(tb.text(), "");
    assert!(!tb.undo());
}

#[test]
fn textbox_redo_replays_undone_edit() {
    let mut tb = TextBox::new(String::new());
    tb.insert_text("hello", NOW);
    tb.undo();
    assert!(tb.redo());
    assert_eq!(tb.text(), "hello");
    assert!(!tb.redo());
}

#[test]
fn textbox_undo_reverts_paste_including_links() {
    let mut tb = TextBox::new(String::new());
    tb.paste("see https://example.com", NOW);
    assert!(!tb.text().is_empty());
    assert_eq!(tb.links().len(), 1);
    assert!(tb.undo());
    assert_eq!(tb.text(), "");
    assert!(
        tb.links().is_empty(),
        "link added during paste must vanish on undo",
    );
}

#[test]
fn textbox_typed_hashtag_without_span_is_not_a_tag() {
    let mut tb = TextBox::new("Notes #urgent".to_string());
    tb.set_force_heading(true);
    assert!(tb.heading_tag_names().is_empty());
    assert!(tb.all_tag_names().is_empty());
    assert_eq!(tb.tag_at(7), None);
}

#[test]
fn textbox_replace_with_tag_creates_span() {
    let mut tb = TextBox::new("Notes #u".to_string());
    tb.set_force_heading(true);
    tb.replace_with_tag(6..8, "#urgent".to_string(), NOW);
    assert_eq!(tb.text(), "Notes #urgent");
    let tag_links: Vec<&LinkSpan> =
        tb.links().iter().filter(|l| is_kept_tag_url(&l.url)).collect();
    assert_eq!(tag_links.len(), 1);
    assert_eq!(tag_links[0].url, "kept-tag://urgent");
    assert_eq!(tb.heading_tag_names(), vec!["urgent".to_string()]);
}

#[test]
fn textbox_replace_with_tag_visible_immediately() {
    let mut tb = TextBox::new("Notes #u".to_string());
    tb.set_force_heading(true);
    tb.rewrap(&|_from: usize, _to: usize| false);
    assert!(tb.links().iter().all(|l| !is_kept_tag_url(&l.url)));
    tb.replace_with_tag(6..8, "#urgent".to_string(), NOW);
    let tag_links: Vec<&LinkSpan> =
        tb.links().iter().filter(|l| is_kept_tag_url(&l.url)).collect();
    assert_eq!(tag_links.len(), 1);
    assert_eq!(tag_links[0].range, 6..13);
}

#[test]
fn textbox_migrate_tags_from_text_seeds_legacy_spans() {
    let mut tb = TextBox::new("Notes #urgent".to_string());
    tb.set_force_heading(true);
    tb.migrate_tags_from_text();
    let tag_count = |tb: &TextBox| -> usize {
        tb.links().iter().filter(|l| is_kept_tag_url(&l.url)).count()
    };
    assert_eq!(tag_count(&tb), 1);
    assert_eq!(tb.heading_tag_names(), vec!["urgent".to_string()]);
    tb.migrate_tags_from_text();
    assert_eq!(tag_count(&tb), 1, "migration is idempotent");
}

#[test]
fn textbox_new_edit_clears_redo_stack() {
    let mut tb = TextBox::new(String::new());
    tb.insert_text("a", NOW);
    tb.break_coalesce();
    tb.insert_text("b", NOW);
    tb.undo();
    tb.break_coalesce();
    tb.insert_text("c", NOW);
    assert_eq!(tb.text(), "ac");
    assert!(!tb.redo(), "redo cleared by the new edit");
}

#[test]
fn textbox_typing_burst_coalesces_into_one_undo() {
    let mut tb = TextBox::new(String::new());
    for c in "hello".chars() {
        tb.insert_text(&c.to_string(), NOW);
    }
    assert_eq!(tb.text(), "hello");
    assert!(tb.undo());
    assert_eq!(tb.text(), "", "burst undid as a single unit");
    assert!(!tb.undo(), "no second undo entry");
}

#[test]
fn textbox_break_coalesce_starts_new_undo_entry() {
    let mut tb = TextBox::new(String::new());
    tb.insert_text("foo", NOW);
    tb.break_coalesce();
    tb.insert_text("bar", NOW);
    assert_eq!(tb.text(), "foobar");
    assert!(tb.undo());
    assert_eq!(tb.text(), "foo", "second burst undone alone");
    assert!(tb.undo());
    assert_eq!(tb.text(), "", "first burst undone next");
}

#[test]
fn textbox_paste_does_not_coalesce_with_following_typing() {
    let mut tb = TextBox::new(String::new());
    tb.paste("pasted ", NOW);
    tb.insert_text("typed", NOW);
    assert_eq!(tb.text(), "pasted typed");
    assert!(tb.undo());
    assert_eq!(tb.text(), "pasted ", "typed burst undone first");
    assert!(tb.undo());
    assert_eq!(tb.text(), "", "paste undone next");
}

#[test]
fn poppop_body_has_no_auto_heading() {
    let mut tb = TextBox::new("# Notes\n2 + 2\nfoo".to_string());
    tb.rewrap(&|_from: usize, _to: usize| false);
    let bands = tb.source_lines();
    assert_eq!(bands.len(), 3);
    for &(_, is_heading) in &bands {
        assert!(!is_heading, "body lines never auto-classify as heading");
    }
    assert!(tb.heading_tag_names().is_empty());
}

#[test]
fn force_heading_marks_every_line_as_heading() {
    let mut tb = TextBox::new("Notes #urgent #person".to_string());
    tb.set_force_heading(true);
    tb.migrate_tags_from_text();
    tb.rewrap(&|_from: usize, _to: usize| false);
    let bands = tb.source_lines();
    assert_eq!(bands.len(), 1);
    assert!(bands[0].1, "title line is heading without `# ` prefix");
    let tags = tb.heading_tag_names();
    assert!(tags.contains(&"urgent".to_string()));
    assert!(tags.contains(&"person".to_string()));
}

#[test]
fn replace_with_link_inserts_link_over_text() {
    let mut tb = TextBox::new("see @al here".to_string());
    tb.replace_with_link(4..7, "Alice Smith".to_string(), "kept://abc".to_string(), NOW);
    assert_eq!(tb.text(), "see Alice Smith here");
    let links = tb.links();
    assert_eq!(links.len(), 1);
    assert_eq!(links[0].range, 4..15);
    assert_eq!(links[0].url, "kept://abc");
}

#[test]
fn link_survives_enter_then_backspace() {
    let mut tb = TextBox::new("before LINK after".to_string());
    tb.add_link(7..11, "https://example.com/".to_string());
    tb.set_caret_at(9);
    tb.insert_text("\n", NOW);
    assert_eq!(tb.text(), "before LI\nNK after");
    assert_eq!(tb.links()[0].range, 7..12, "link spans the \\n");
    tb.set_caret_at(10);
    tb.backspace(NOW);
    assert_eq!(tb.text(), "before LINK after");
    assert_eq!(
        tb.links().len(),
        1,
        "link survives delete-of-newline-inside-link"
    );
    assert_eq!(tb.links()[0].range, 7..11);
}

#[test]
fn plain_link_survives_multi_edit_undo_sequence() {
    let mut tb = TextBox::new("before LINK after".to_string());
    tb.add_link(7..11, "https://example.com/".to_string());
    let snap0 = tb.snapshot();
    tb.set_caret_at(9);
    tb.insert_text("X", NOW);
    let snap1 = tb.snapshot();
    tb.insert_text("Y", NOW);
    let snap2 = tb.snapshot();
    tb.insert_text("\n", NOW);
    assert_eq!(tb.links().len(), 1);
    assert_eq!(tb.links()[0].range, 7..14);
    tb.restore(snap2);
    assert_eq!(tb.text(), "before LIXYNK after");
    assert_eq!(tb.links()[0].range, 7..13);
    tb.restore(snap1);
    assert_eq!(tb.text(), "before LIXNK after");
    assert_eq!(tb.links()[0].range, 7..12);
    tb.restore(snap0);
    assert_eq!(tb.text(), "before LINK after");
    assert_eq!(tb.links()[0].range, 7..11);
}

#[test]
fn plain_link_survives_edit_then_undo() {
    let mut tb = TextBox::new("before LINK after".to_string());
    tb.add_link(7..11, "https://example.com/".to_string());
    let pre = tb.snapshot();
    tb.set_caret_at(9);
    tb.insert_text("X", NOW);
    tb.insert_text("Y", NOW);
    tb.insert_text("\n", NOW);
    assert_eq!(tb.links().len(), 1, "link survived edit");
    let after = tb.links()[0].range.clone();
    assert!(after.end > after.start);
    tb.restore(pre.duplicate());
    assert_eq!(tb.text(), "before LINK after");
    assert_eq!(tb.links().len(), 1, "link restored on undo");
    assert_eq!(tb.links()[0].range, 7..11);
    assert_eq!(tb.links()[0].url, "https://example.com/");
}

#[test]
fn table_default_dimensions_are_3x3() {
    let tc = TableCell::new();
    assert_eq!(tc.rows(), 3);
    assert_eq!(tc.cols(), 3);
    assert_eq!(tc.focused_index(), (0, 0));
    assert!(tc.is_empty());
}

#[test]
fn table_focus_moves_with_tab() {
    let mut tc = TableCell::new();
    for col in 1..3 {
        assert!(tc.step_focus(true));
        assert_eq!(tc.focused_index(), (0, col));
    }
    assert!(tc.step_focus(true));
    assert_eq!(tc.focused_index(), (1, 0));
    while tc.focused_index() != (2, 2) {
        assert!(tc.step_focus(true));
    }
    assert!(!tc.step_focus(true), "no-op past last cell");
    assert_eq!(tc.focused_index(), (2, 2));
    assert!(tc.step_focus(false));
    assert_eq!(tc.focused_index(), (2, 1));
}

#[test]
fn cell_toggle_title_focus_creates_title() {
    let mut cell = Cell::new(String::new());
    assert!(cell.title.is_none());
    assert!(cell.toggle_title_focus());
    assert!(cell.title.is_some());
    assert!(cell.title_focused);
    assert!(!cell.toggle_title_focus());
    assert!(cell.title_focused);
}

#[test]
fn cell_toggle_title_focus_focuses_existing() {
    let mut cell = Cell::new(String::new());
    cell.toggle_title_focus();
    cell.title_focused = false;
    assert!(cell.toggle_title_focus());
    assert!(cell.title_focused);
}

#[test]
fn title_trailing_tags_parse_without_hash_prefix() {
    let mut cell = Cell::new(String::new());
    cell.toggle_title_focus();
    let title = cell.title.as_mut().unwrap();
    title.replace_text("My Notes #urgent #person".to_string(), NOW);
    title.migrate_tags_from_text();
    let tags = cell.heading_tag_names();
    assert!(tags.contains(&"urgent".to_string()));
    assert!(tags.contains(&"person".to_string()));
    assert_eq!(cell.heading_title().as_deref(), Some("My Notes"));
}

#[test]
fn all_tag_names_aggregates_title_and_body_for_plain() {
    let mut cell = Cell::new("follow up #urgent later".to_string());
    if let CellKind::Plain(pc) = &mut cell.kind {
        pc.body_mut().migrate_tags_from_text();
    }
    cell.toggle_title_focus();
    let title = cell.title.as_mut().unwrap();
    title.replace_text("Note #person".to_string(), NOW);
    title.migrate_tags_from_text();
    let tags = cell.all_tag_names();
    assert!(tags.contains(&"person".to_string()));
    assert!(tags.contains(&"urgent".to_string()));
}

#[test]
fn all_tag_names_picks_up_outline_bullet_tags() {
    let mut tb = TextBox::new("buy milk #shopping".to_string());
    tb.migrate_tags_from_text();
    let oc = OutlineCell::from_bullets(
        vec![Bullet::new(new_id(), tb, 0)],
    );
    let mut cell = Cell::new(String::new());
    cell.kind = CellKind::Outline(oc);
    let tags = cell.all_tag_names();
    assert!(tags.contains(&"shopping".to_string()));
}

#[test]
fn all_tag_names_excludes_poppop_body() {
    let mut cell = Cell::new_poppop();
    if let CellKind::PopPop(pc) = &mut cell.kind {
        pc.textbox_mut()
            .replace_text("# this is a poppop comment, not a tag\n1 + 1".to_string(), NOW);
    }
    let tags = cell.all_tag_names();
    assert!(tags.is_empty(), "PopPop body must not contribute tags");
}

#[test]
fn caret_in_in_progress_tag_detects_body_edit() {
    let mut cell = Cell::new(String::new());
    if let CellKind::Plain(pc) = &mut cell.kind {
        pc.body_mut().replace_text("note #foo".to_string(), NOW);
        pc.body_mut().migrate_tags_from_text();
        pc.body_mut().set_caret_at(9);
    }
    cell.title_focused = false;
    assert!(cell.caret_in_in_progress_tag());
}

#[test]
fn textbox_tag_at_returns_name_for_byte_inside_inline_tag() {
    let mut tb = TextBox::new("follow up #shopping later".to_string());
    tb.migrate_tags_from_text();
    assert_eq!(tb.tag_at(14).as_deref(), Some("shopping"));
    assert_eq!(tb.tag_at(9), None);
    assert_eq!(tb.tag_at(19), None);
}

#[test]
fn outline_bullets_matching_any_tag_includes_subtree_descendants() {
    let mk = |t: &str, d: u32| {
        Bullet::new(
            new_id(),
            TextBox::new(t.to_string()),
            d,
        )
    };
    let bullets = vec![
        mk("root #urgent", 0),
        mk("child a", 1),
        mk("child b", 1),
        mk("sibling root", 0),
        mk("nested #urgent", 1),
    ];
    let ids: Vec<Uuid> = bullets.iter().map(|b| b.id()).collect();
    let oc = OutlineCell::from_bullets(bullets);
    let m = oc.bullets_matching_any_tag(&["urgent".to_string()]);
    assert!(m.contains(&ids[0]));
    assert!(m.contains(&ids[1]));
    assert!(m.contains(&ids[2]));
    assert!(!m.contains(&ids[3]));
    assert!(m.contains(&ids[4]));
}

#[test]
fn caret_in_in_progress_tag_false_when_caret_outside_tag() {
    let mut cell = Cell::new(String::new());
    if let CellKind::Plain(pc) = &mut cell.kind {
        pc.body_mut().replace_text("note #foo ".to_string(), NOW);
        pc.body_mut().set_caret_at(10);
    }
    cell.title_focused = false;
    assert!(!cell.caret_in_in_progress_tag());
}

#[test]
fn reference_cache_is_stale_when_no_cache_yet() {
    let target_id = new_id();
    let rc = ReferenceCell::new(ReferenceTarget::WholeCell(target_id));
    assert!(rc.cache_is_stale_for(Some(123)));
    assert!(!rc.cache_is_stale_for(None));
}

#[test]
fn reference_cache_is_stale_when_source_edited_at_changes() {
    let target_id = new_id();
    let mut rc = ReferenceCell::new(ReferenceTarget::WholeCell(target_id));
    let dummy = Cell::new(String::new());
    rc.install_cache(Some(dummy), Some(100));
    assert!(!rc.cache_is_stale_for(Some(100)), "same edited_at → fresh");
    assert!(rc.cache_is_stale_for(Some(101)), "bumped edited_at → stale");
}

#[test]
fn reference_cache_is_stale_when_target_disappears() {
    let target_id = new_id();
    let mut rc = ReferenceCell::new(ReferenceTarget::WholeCell(target_id));
    let dummy = Cell::new(String::new());
    rc.install_cache(Some(dummy), Some(100));
    assert!(rc.cache_is_stale_for(None));
}

#[test]
fn reference_cache_install_clears_when_passed_none() {
    let target_id = new_id();
    let mut rc = ReferenceCell::new(ReferenceTarget::WholeCell(target_id));
    let dummy = Cell::new(String::new());
    rc.install_cache(Some(dummy), Some(100));
    assert!(rc.cache_ref().is_some());
    rc.install_cache(None, None);
    assert!(rc.cache_ref().is_none());
    assert!(!rc.cache_is_stale_for(None));
}

#[test]
fn table_snapshot_round_trip() {
    let mut tc = TableCell::new();
    tc.cell_at_mut(0, 0).unwrap().textbox.replace_text("alpha".to_string(), NOW);
    tc.cell_at_mut(1, 2).unwrap().textbox.replace_text("hello".to_string(), NOW);
    tc.cell_at_mut(2, 0).unwrap().readonly = true;
    let snap = tc.snapshot();
    tc.cell_at_mut(0, 0).unwrap().textbox.replace_text("DIFFERENT".to_string(), NOW);
    tc.cell_at_mut(1, 2).unwrap().textbox.replace_text(String::new(), NOW);
    tc.cell_at_mut(2, 0).unwrap().readonly = false;
    tc.restore(snap);
    assert_eq!(tc.cell_at(0, 0).unwrap().textbox.text(), "alpha");
    assert_eq!(tc.cell_at(1, 2).unwrap().textbox.text(), "hello");
    assert!(tc.cell_at(2, 0).unwrap().readonly);
    assert!(tc.cell_at(0, 1).unwrap().textbox.is_empty());
    assert!(!tc.cell_at(0, 1).unwrap().readonly);
}

#[test]
fn a_calculator_is_cloned_at_the_scale_asked_for() {
    let mut p = PopPopCell::new();
    p.textbox_mut().replace_text("1 + 1\n".to_string(), NOW);
    let cloned = CellKind::PopPop(p).clone_for_scale(2.0_f32.to_bits()).expect("a clone");
    let CellKind::PopPop(q) = cloned else {
        panic!("a calculator");
    };
    assert_eq!(q.textbox().text(), "1 + 1\n");
    assert_eq!(q.textbox().font_scale(), 2.0_f32.to_bits());
    assert_eq!(q.output().font_scale(), 2.0_f32.to_bits());
}
