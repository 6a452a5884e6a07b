use kept::cell::common::now_epoch_ms;
use kept::cell::outline::{Bullet, OutlineCell};
use kept::cell::reference::ReferenceTarget;
use kept::cell::table::TableCell;
use kept::cell::textbox::TextBox;
use kept::cell::{Cell, CellKind};
use kept::ids::new_id;
use kept::json::Json;
use kept::persist::cells::{body_to_kind, persisted_cell_from};
use kept::persist::migrating::extract_title_from_body_json;
use kept::persist::naming::tag_names_from_persisted_legacy;
use kept::persist::records::{CellBody, PersistedCell, ReferenceTargetRecord};
use kept::persist::rows::CellRow;
use kept::persist::Db;
use kept::thread::Thread;

const NOW: u64 = 1_000;
const NOW_MS: i64 = 1_000;

// Sends a cell through storage and back.
fn round_trip(cell: &Cell) -> Cell {
    CellRow::of_cell(cell).load(NOW).expect("loads")
}

// Writes a body to JSON and reads it again.
fn written_and_read(body: CellBody) -> CellBody {
    let stored = PersistedCell {
        title: None,
        active: true,
        closed_at: None,
        resurface_after: None,
        inbox: false,
        body,
    };
    PersistedCell::parse(&stored.to_text()).unwrap().body
}

#[test]
fn round_trip_plain_cell_preserves_text_and_links() {
    let mut cell = Cell::new("hello LINK world".to_string());
    cell.add_link_to_first(6..10, "https://example.com/a".to_string());
    let back = round_trip(&cell);
    match (&cell.kind, &back.kind) {
        (CellKind::Plain(orig), CellKind::Plain(reborn)) => {
            let (o, r) = (orig.body(), reborn.body());
            assert_eq!(o.text(), r.text());
            assert_eq!(o.links().len(), r.links().len(), "link count");
            let (ol, rl) = (&o.links()[0], &r.links()[0]);
            assert_eq!(ol.range, rl.range);
            assert_eq!(ol.url, rl.url);
        }
        _ => panic!("variant must round-trip as Plain"),
    }
    assert_eq!(cell.id, back.id);
    assert_eq!(cell.timestamp, back.timestamp);
}

#[test]
fn round_trip_outline_preserves_bullets_depths_and_links() {
    let mut cell = Cell::new_outline();
    if let CellKind::Outline(oc) = &mut cell.kind {
        let seed_id = oc.bullets()[0].id();
        let mut tb1 = TextBox::new("root LINK here".to_string());
        tb1.add_link(5..9, "https://example.com/r".to_string());
        let b1 = Bullet::new(seed_id, tb1, 0);
        let b2 = Bullet::new(
            new_id(),
            TextBox::new("child".to_string()),
            1,
        );
        let b3 = Bullet::new(
            new_id(),
            TextBox::new("grandchild".to_string()),
            2,
        );
        *oc = OutlineCell::from_bullets(vec![b1, b2, b3]);
    }
    let back = round_trip(&cell);
    match (&cell.kind, &back.kind) {
        (CellKind::Outline(orig), CellKind::Outline(reborn)) => {
            assert_eq!(orig.bullets().len(), reborn.bullets().len());
            for (o, r) in orig.bullets().iter().zip(reborn.bullets().iter()) {
                assert_eq!(o.id(), r.id());
                assert_eq!(o.depth(), r.depth());
                assert_eq!(o.textbox().text(), r.textbox().text());
                assert_eq!(o.textbox().links().len(), r.textbox().links().len());
            }
            let r_links = reborn.bullets()[0].textbox().links();
            assert_eq!(r_links.len(), 1);
            assert_eq!(r_links[0].range, 5..9);
            assert_eq!(r_links[0].url, "https://example.com/r");
        }
        _ => panic!("variant must round-trip as Outline"),
    }
}

#[test]
fn round_trip_poppop_preserves_input_and_links() {
    let mut cell = Cell::new_poppop();
    if let CellKind::PopPop(pc) = &mut cell.kind {
        pc.textbox_mut().replace_text("2 + 3\nx LINK".to_string(), NOW);
        pc.textbox_mut().add_link(8..12, "https://example.com/p".to_string());
    }
    let back = round_trip(&cell);
    match (&cell.kind, &back.kind) {
        (CellKind::PopPop(orig), CellKind::PopPop(reborn)) => {
            assert_eq!(orig.textbox().text(), reborn.textbox().text());
            assert_eq!(orig.textbox().links().len(), reborn.textbox().links().len());
            let (o, r) = (&orig.textbox().links()[0], &reborn.textbox().links()[0]);
            assert_eq!(o.range, r.range);
            assert_eq!(o.url, r.url);
        }
        _ => panic!("variant must round-trip as PopPop"),
    }
}

#[test]
fn round_trip_table_preserves_grid_and_readonly_flags() {
    let triples: Vec<Vec<(String, Vec<(std::ops::Range<usize>, String)>, bool)>> = vec![
        vec![
            ("h1".to_string(), Vec::new(), true),
            ("h2".to_string(), Vec::new(), true),
            ("h3".to_string(), Vec::new(), true),
        ],
        vec![
            (
                "a LINK".to_string(),
                vec![(2..6, "https://example.com/t".to_string())],
                false,
            ),
            ("b".to_string(), Vec::new(), false),
            ("c".to_string(), Vec::new(), false),
        ],
    ];
    let table = TableCell::from_records(triples);
    let cell = Cell::from_parts(
        new_id(),
        CellKind::Table(table),
        None,
        now_epoch_ms(),
        now_epoch_ms(),
        None,
        None,
        None,
        false,
        false,
    );
    let back = round_trip(&cell);
    match (&cell.kind, &back.kind) {
        (CellKind::Table(orig), CellKind::Table(reborn)) => {
            assert_eq!(orig.rows(), reborn.rows());
            assert_eq!(orig.cols(), reborn.cols());
            let orig_rows = orig.rows_view();
            let reborn_rows = reborn.rows_view();
            for (o_row, r_row) in orig_rows.iter().zip(reborn_rows.iter()) {
                for (o, r) in o_row.iter().zip(r_row.iter()) {
                    assert_eq!(o.textbox.text(), r.textbox.text());
                    assert_eq!(o.readonly, r.readonly);
                    assert_eq!(o.textbox.links().len(), r.textbox.links().len());
                }
            }
            let r_links = reborn_rows[1][0].textbox.links();
            assert_eq!(r_links.len(), 1);
            assert_eq!(r_links[0].range, 2..6);
            assert_eq!(r_links[0].url, "https://example.com/t");
        }
        _ => panic!("variant must round-trip as Table"),
    }
}

#[test]
fn round_trip_reference_cell_preserves_target() {
    let target_id = new_id();
    let cell = Cell::new_reference(ReferenceTarget::WholeCell(target_id));
    let back = round_trip(&cell);
    match &back.kind {
        CellKind::Reference(rc) => match rc.target() {
            ReferenceTarget::WholeCell(id) => assert_eq!(id, target_id),
            _ => panic!("WholeCell target lost"),
        },
        _ => panic!("variant must round-trip as Reference"),
    }
}

#[test]
fn round_trip_envelope_outline_preserves_header_and_bullets() {
    let target_id = new_id();
    let mut oc = OutlineCell::with_envelope(ReferenceTarget::WholeCell(target_id),
    );
    let bullet_id = oc.bullets()[0].id();
    oc.replace_in_bullet_with_text(bullet_id, 0..0, "my note".to_string(), NOW);

    let cell = Cell::from_parts(
        new_id(),
        CellKind::Outline(oc),
        None,
        now_epoch_ms(),
        now_epoch_ms(),
        None,
        None,
        None,
        false,
        false,
    );
    let back = round_trip(&cell);
    match &back.kind {
        CellKind::Outline(reborn) => {
            let header = reborn
                .reference_header()
                .expect("header survives round-trip");
            match header.target() {
                ReferenceTarget::WholeCell(id) => assert_eq!(id, target_id),
                _ => panic!("WholeCell target lost"),
            }
            assert_eq!(reborn.bullets().len(), 1);
            assert_eq!(reborn.bullets()[0].textbox().text(), "my note");
        }
        _ => panic!("variant must round-trip as Outline"),
    }
}

#[test]
fn cell_closed_at_round_trips_through_persistence() {
    let mut cell = Cell::new("archived note".to_string());
    cell.closed_at = Some(987_654);
    let back = round_trip(&cell);
    assert_eq!(back.closed_at, Some(987_654), "closed_at survives round-trip");
    assert!(!back.is_open());
}

#[test]
fn cell_resurface_after_round_trips_through_persistence() {
    let mut cell = Cell::new("snoozed note".to_string());
    cell.resurface_after = Some(2_000_000);
    let back = round_trip(&cell);
    assert_eq!(back.resurface_after, Some(2_000_000));
}

#[test]
fn legacy_active_false_backfills_closed_at_to_edited_at() {
    let cell = Cell::new("legacy archived".to_string());
    let edited = cell.edited_at;
    let pc = persisted_cell_from(&cell);
    let mut json: serde_json::Value = serde_json::from_str(&pc.to_text()).unwrap();
    let obj = json.as_object_mut().unwrap();
    obj.remove("closed_at");
    obj.insert("active".to_string(), serde_json::Value::Bool(false));
    let json_str = serde_json::to_string(&json).unwrap();
    let pc = PersistedCell::parse(&json_str).expect("parses");
    let closed_at = pc.closed_at.or_else(|| {
        if !pc.active { Some(cell.edited_at) } else { None }
    });
    assert_eq!(
        closed_at,
        Some(edited),
        "legacy active=false rows produce closed_at = edited_at"
    );
}

#[test]
fn legacy_persisted_cell_without_active_loads_as_active() {
    let json = r##"{"kind":"plain","text":"legacy","links":[],"tags":[]}"##;
    let pc = PersistedCell::parse(json).expect("legacy plain parses");
    assert!(pc.active, "missing field defaults to true (active)");
    assert!(pc.closed_at.is_none());
}

#[test]
fn legacy_block_record_without_active_loads_as_active() {
    let json = r##"{"kind":"outline","blocks":[{"id":"00000000-0000-7000-8000-000000000001","depth":0,"text":"legacy bullet","links":[],"tags":[]}]}"##;
    let body = CellBody::from_json(&Json::parse(json).unwrap()).expect("legacy outline parses");
    let kind = body_to_kind(body, NOW);
    match kind {
        CellKind::Outline(oc) => {
            assert_eq!(oc.bullets().len(), 1);
            assert!(
                oc.bullets()[0].is_open(),
                "legacy bullet defaults to open"
            );
        }
        _ => panic!("expected Outline kind"),
    }
}

#[test]
fn bullet_closed_at_round_trips_through_persistence() {
    let mut oc = OutlineCell::new();
    let bid = oc.bullets()[0].id();
    oc.set_bullet_closed_at(bid, Some(123));
    let cell = Cell::from_parts(
        new_id(),
        CellKind::Outline(oc),
        None,
        now_epoch_ms(),
        now_epoch_ms(),
        None,
        None,
        None,
        false,
        false,
    );
    let back = round_trip(&cell);
    match &back.kind {
        CellKind::Outline(oc) => {
            assert_eq!(
                oc.bullets()[0].closed_at(),
                Some(123),
                "bullet closed_at survives round-trip"
            );
        }
        _ => panic!("variant lost"),
    }
}

#[test]
fn legacy_outline_without_header_field_loads_with_no_header() {
    let json = r##"{"kind":"outline","blocks":[{"id":"00000000-0000-7000-8000-000000000001","depth":0,"text":"plain bullet","links":[],"tags":[]}]}"##;
    let body = CellBody::from_json(&Json::parse(json).unwrap()).expect("legacy outline parses");
    let kind = body_to_kind(body, NOW);
    match kind {
        CellKind::Outline(oc) => {
            assert!(oc.reference_header().is_none());
            assert_eq!(oc.bullets().len(), 1);
            assert_eq!(oc.bullets()[0].textbox().text(), "plain bullet");
        }
        _ => panic!("expected Outline kind"),
    }
}

#[test]
fn round_trip_title_preserves_text_and_tags() {
    let mut cell = Cell::new("body".to_string());
    cell.set_title(Some({
        let mut tb = TextBox::new("Project Notes #urgent #planning".to_string());
        tb.set_force_heading(true);
        tb.add_link(0..7, "https://example.com/h".to_string());
        tb.migrate_tags_from_text();
        tb
    }));
    let back = round_trip(&cell);
    let orig_title = cell.title().expect("orig has title");
    let reborn_title = back.title().expect("title survives round-trip");
    assert_eq!(orig_title.text(), reborn_title.text());
    assert_eq!(orig_title.links().len(), reborn_title.links().len());
    let (o, r) = (&orig_title.links()[0], &reborn_title.links()[0]);
    assert_eq!(o.range, r.range);
    assert_eq!(o.url, r.url);
    assert_eq!(
        back.heading_tag_names(),
        vec!["urgent".to_string(), "planning".to_string()]
    );
}

#[test]
fn reference_cell_round_trips_through_json() {
    let cid = new_id();
    let body = CellBody::Reference {
        target: ReferenceTargetRecord::Cell { cell_id: cid },
    };
    let parsed = written_and_read(body);
    match parsed {
        CellBody::Reference {
            target: ReferenceTargetRecord::Cell { cell_id },
        } => assert_eq!(cell_id, cid),
        _ => panic!("whole-cell reference must round-trip"),
    }

    let bid = new_id();
    let body = CellBody::Reference {
        target: ReferenceTargetRecord::Subtree {
            cell_id: cid,
            bullet_id: bid,
        },
    };
    let parsed = written_and_read(body);
    match parsed {
        CellBody::Reference {
            target: ReferenceTargetRecord::Subtree { cell_id, bullet_id },
        } => {
            assert_eq!(cell_id, cid);
            assert_eq!(bullet_id, bid);
        }
        _ => panic!("subtree reference must round-trip"),
    }
}

#[test]
fn migration_extracts_plain_heading_into_title() {
    let json = r##"{"kind":"plain","text":"# My Notes #urgent\nbody line","links":[]}"##;
    let updated = extract_title_from_body_json(json).expect("should rewrite");
    let pc = PersistedCell::parse(&updated).unwrap();
    assert_eq!(
        pc.title.as_ref().map(|t| t.text.as_str()),
        Some("My Notes #urgent")
    );
    match &pc.body {
        CellBody::Plain { text, .. } => assert_eq!(text, "body line"),
        _ => panic!("kind survives migration"),
    }
    assert_eq!(
        tag_names_from_persisted_legacy(&pc),
        vec!["urgent".to_string()],
    );
}

#[test]
fn migration_skips_cells_without_heading_prefix() {
    let json = r##"{"kind":"plain","text":"no heading here","links":[]}"##;
    assert!(extract_title_from_body_json(json).is_none());
}

#[test]
fn migration_is_idempotent_on_already_migrated_rows() {
    let json =
        r##"{"title":{"text":"Foo","links":[]},"kind":"plain","text":"body","links":[]}"##;
    assert!(extract_title_from_body_json(json).is_none());
}

#[test]
fn migration_extracts_outline_first_bullet() {
    let json = r##"{"kind":"outline","blocks":[{"id":"00000000-0000-7000-8000-000000000001","depth":0,"text":"# Topic #person","links":[]},{"id":"00000000-0000-7000-8000-000000000002","depth":0,"text":"first child","links":[]}]}"##;
    let updated = extract_title_from_body_json(json).expect("should rewrite");
    let pc = PersistedCell::parse(&updated).unwrap();
    assert_eq!(
        pc.title.as_ref().map(|t| t.text.as_str()),
        Some("Topic #person")
    );
    match &pc.body {
        CellBody::Outline { blocks, .. } => {
            assert_eq!(blocks.len(), 1);
            assert_eq!(blocks[0].text, "first child");
        }
        _ => panic!("kind survives migration"),
    }
    assert_eq!(
        tag_names_from_persisted_legacy(&pc),
        vec!["person".to_string()],
    );
}

fn open_in_memory_db() -> Db {
    Db::new()
}

#[test]
fn round_trip_scratch_cell_preserves_flag() {
    let mut db = open_in_memory_db();
    let mut cell = Cell::new("scratch note".to_string());
    cell.scratch = true;
    let id = cell.id;
    db.save_cell(&cell, NOW_MS);
    let back = db
        .load_cells(NOW)
        .expect("load")
        .into_iter()
        .find(|c| c.id == id)
        .expect("cell present");
    assert!(back.scratch, "scratch flag survives a save→load round-trip");
}

#[test]
fn round_trip_non_scratch_cell_defaults_to_non_scratch() {
    let mut db = open_in_memory_db();
    let cell = Cell::new("regular".to_string());
    let id = cell.id;
    db.save_cell(&cell, NOW_MS);
    let back = db
        .load_cells(NOW)
        .expect("load")
        .into_iter()
        .find(|c| c.id == id)
        .expect("cell present");
    assert!(!back.scratch, "regular cells stay non-scratch");
}

#[test]
fn prune_expired_scratch_removes_old_only() {
    let mut db = open_in_memory_db();
    let now = now_epoch_ms();
    let day = 24 * 60 * 60 * 1000_i64;
    let mut old_scratch = Cell::new("old scratch".to_string());
    old_scratch.timestamp = now - 11 * day;
    old_scratch.scratch = true;
    let old_scratch_id = old_scratch.id;
    let mut new_scratch = Cell::new("new scratch".to_string());
    new_scratch.timestamp = now - 1 * day;
    new_scratch.scratch = true;
    let new_scratch_id = new_scratch.id;
    let mut old_regular = Cell::new("old regular".to_string());
    old_regular.timestamp = now - 30 * day;
    let old_regular_id = old_regular.id;
    for c in [&old_scratch, &new_scratch, &old_regular] {
        db.save_cell(c, NOW_MS);
    }
    let cutoff = now - 10 * day;
    let removed = db.prune_expired_scratch(cutoff);
    assert_eq!(removed.len(), 1, "exactly one row removed");
    assert_eq!(removed[0], old_scratch_id);
    let remaining: Vec<u128> = db
        .load_cells(NOW)
        .expect("load")
        .into_iter()
        .map(|c| c.id)
        .collect();
    assert!(remaining.contains(&new_scratch_id), "fresh scratch survives");
    assert!(remaining.contains(&old_regular_id), "old regular cells aren't touched");
    assert!(!remaining.contains(&old_scratch_id), "expired scratch is gone");
}

fn fresh_thread(title: &str) -> Thread {
    let now = now_epoch_ms();
    Thread {
        id: new_id(),
        title: title.to_string(),
        created_at: now,
        edited_at: now,
        closed_at: None,
    }
}

#[test]
fn round_trip_thread_create_list_delete() {
    let mut db = open_in_memory_db();
    let t = fresh_thread("alpha");
    db.upsert_thread(&t);
    let listed = db.all_threads();
    assert_eq!(listed.len(), 1);
    assert_eq!(listed[0].id, t.id);
    assert_eq!(listed[0].title, "alpha");
    db.delete_thread(t.id);
    assert!(db.all_threads().is_empty());
}

#[test]
fn attach_detach_whole_cell_and_subtree() {
    let mut db = open_in_memory_db();
    let cell = Cell::new("host".to_string());
    let cell_id = cell.id;
    let bullet_id = new_id();
    db.save_cell(&cell, NOW_MS);
    let t = fresh_thread("x");
    db.upsert_thread(&t);
    db.attach_thread(t.id, ReferenceTarget::WholeCell(cell_id), 100)
        .expect("attach whole");
    db.attach_thread(
        t.id,
        ReferenceTarget::Subtree { cell_id, bullet_id },
        200,
    )
    .expect("attach subtree");
    let mems = db.all_thread_memberships();
    assert_eq!(mems.len(), 2);
    let mut targets: Vec<_> = mems.iter().map(|m| m.target).collect();
    targets.sort_by_key(|t| match t {
        ReferenceTarget::WholeCell(_) => 0,
        ReferenceTarget::Subtree { .. } => 1,
    });
    assert!(matches!(targets[0], ReferenceTarget::WholeCell(c) if c == cell_id));
    assert!(matches!(
        targets[1],
        ReferenceTarget::Subtree { cell_id: c, bullet_id: b }
            if c == cell_id && b == bullet_id
    ));
    db.detach_thread(t.id, ReferenceTarget::WholeCell(cell_id));
    let after = db.all_thread_memberships();
    assert_eq!(after.len(), 1);
    assert!(matches!(after[0].target, ReferenceTarget::Subtree { .. }));
}

#[test]
fn attach_is_idempotent() {
    let mut db = open_in_memory_db();
    let cell = Cell::new("host".to_string());
    let cell_id = cell.id;
    db.save_cell(&cell, NOW_MS);
    let t = fresh_thread("x");
    db.upsert_thread(&t);
    db.attach_thread(t.id, ReferenceTarget::WholeCell(cell_id), 100)
        .expect("attach 1");
    db.attach_thread(t.id, ReferenceTarget::WholeCell(cell_id), 200)
        .expect("attach 2");
    assert_eq!(db.all_thread_memberships().len(), 1);
}

#[test]
fn cell_delete_cascades_memberships() {
    let mut db = open_in_memory_db();
    let cell = Cell::new("host".to_string());
    let cell_id = cell.id;
    db.save_cell(&cell, NOW_MS);
    let t = fresh_thread("x");
    db.upsert_thread(&t);
    db.attach_thread(t.id, ReferenceTarget::WholeCell(cell_id), 1)
        .expect("attach");
    db.delete_cell(cell_id, NOW_MS);
    assert!(
        db.all_thread_memberships().is_empty(),
        "FK cascade should drop memberships when the host cell is deleted"
    );
}

#[test]
fn thread_delete_cascades_memberships() {
    let mut db = open_in_memory_db();
    let cell = Cell::new("host".to_string());
    let cell_id = cell.id;
    db.save_cell(&cell, NOW_MS);
    let t = fresh_thread("x");
    db.upsert_thread(&t);
    db.attach_thread(t.id, ReferenceTarget::WholeCell(cell_id), 1)
        .expect("attach");
    db.delete_thread(t.id);
    assert!(db.all_thread_memberships().is_empty());
}

#[test]
fn reconcile_subtree_memberships_drops_only_orphans() {
    let mut db = open_in_memory_db();
    let cell = Cell::new("host".to_string());
    let cell_id = cell.id;
    db.save_cell(&cell, NOW_MS);
    let t = fresh_thread("alpha");
    db.upsert_thread(&t);
    let live_bullet = new_id();
    let dead_bullet = new_id();
    db.attach_thread(t.id, ReferenceTarget::WholeCell(cell_id), 10)
        .expect("attach whole");
    db.attach_thread(
        t.id,
        ReferenceTarget::Subtree { cell_id, bullet_id: live_bullet },
        20,
    )
    .expect("attach live");
    db.attach_thread(
        t.id,
        ReferenceTarget::Subtree { cell_id, bullet_id: dead_bullet },
        30,
    )
    .expect("attach dead");
    let removed = db
        .reconcile_subtree_memberships(cell_id, &[live_bullet]);
    assert_eq!(removed, 1);
    let mems = db.all_thread_memberships();
    assert_eq!(mems.len(), 2);
    let targets: Vec<_> = mems.iter().map(|m| m.target).collect();
    assert!(targets.iter().any(|t| matches!(t, ReferenceTarget::WholeCell(c) if *c == cell_id)));
    assert!(targets.iter().any(|t| matches!(
        t,
        ReferenceTarget::Subtree { cell_id: c, bullet_id: b }
            if *c == cell_id && *b == live_bullet
    )));
}

#[test]
fn set_bullet_memberships_round_trips_via_move_then_restore() {
    let mut db = open_in_memory_db();
    let cell = Cell::new("host".to_string());
    let cell_id = cell.id;
    db.save_cell(&cell, NOW_MS);
    let t1 = fresh_thread("alpha");
    let t2 = fresh_thread("beta");
    let t3 = fresh_thread("gamma");
    db.upsert_thread(&t1);
    db.upsert_thread(&t2);
    db.upsert_thread(&t3);
    let from = new_id();
    let into = new_id();
    db.attach_thread(
        t1.id,
        ReferenceTarget::Subtree { cell_id, bullet_id: from },
        10,
    )
    .expect("attach t1@from");
    db.attach_thread(
        t2.id,
        ReferenceTarget::Subtree { cell_id, bullet_id: from },
        20,
    )
    .expect("attach t2@from");
    db.attach_thread(
        t2.id,
        ReferenceTarget::Subtree { cell_id, bullet_id: into },
        30,
    )
    .expect("attach t2@into");
    db.attach_thread(
        t3.id,
        ReferenceTarget::Subtree { cell_id, bullet_id: into },
        40,
    )
    .expect("attach t3@into");
    let pre_from: Vec<(u128, i64)> = vec![(t1.id, 10), (t2.id, 20)];
    let pre_into: Vec<(u128, i64)> = vec![(t2.id, 30), (t3.id, 40)];
    db.move_bullet_memberships(cell_id, from, into);
    db.set_bullet_memberships(cell_id, from, &pre_from)
        .expect("restore from");
    db.set_bullet_memberships(cell_id, into, &pre_into)
        .expect("restore into");
    let mems = db.all_thread_memberships();
    assert_eq!(mems.len(), 4);
    let at_from: Vec<_> = mems
        .iter()
        .filter(|m| matches!(
            m.target,
            ReferenceTarget::Subtree { cell_id: c, bullet_id: b }
                if c == cell_id && b == from
        ))
        .map(|m| (m.thread_id, m.attached_at))
        .collect();
    let mut at_from_sorted = at_from.clone();
    at_from_sorted.sort_by_key(|(_, a)| *a);
    assert_eq!(at_from_sorted, vec![(t1.id, 10), (t2.id, 20)]);
    let at_into: Vec<_> = mems
        .iter()
        .filter(|m| matches!(
            m.target,
            ReferenceTarget::Subtree { cell_id: c, bullet_id: b }
                if c == cell_id && b == into
        ))
        .map(|m| (m.thread_id, m.attached_at))
        .collect();
    let mut at_into_sorted = at_into.clone();
    at_into_sorted.sort_by_key(|(_, a)| *a);
    assert_eq!(at_into_sorted, vec![(t2.id, 30), (t3.id, 40)]);
}

#[test]
fn move_bullet_memberships_transfers_and_dedupes() {
    let mut db = open_in_memory_db();
    let cell = Cell::new("host".to_string());
    let cell_id = cell.id;
    db.save_cell(&cell, NOW_MS);
    let t1 = fresh_thread("alpha");
    let t2 = fresh_thread("beta");
    db.upsert_thread(&t1);
    db.upsert_thread(&t2);
    let from = new_id();
    let into = new_id();
    db.attach_thread(
        t1.id,
        ReferenceTarget::Subtree { cell_id, bullet_id: from },
        10,
    )
    .expect("attach t1@from");
    db.attach_thread(
        t2.id,
        ReferenceTarget::Subtree { cell_id, bullet_id: from },
        20,
    )
    .expect("attach t2@from");
    db.attach_thread(
        t2.id,
        ReferenceTarget::Subtree { cell_id, bullet_id: into },
        30,
    )
    .expect("attach t2@into");
    db.move_bullet_memberships(cell_id, from, into);
    let mems = db.all_thread_memberships();
    assert_eq!(mems.len(), 2);
    for m in &mems {
        assert!(matches!(
            m.target,
            ReferenceTarget::Subtree { cell_id: c, bullet_id: b }
                if c == cell_id && b == into
        ));
    }
    let thread_ids: std::collections::HashSet<_> =
        mems.iter().map(|m| m.thread_id).collect();
    assert!(thread_ids.contains(&t1.id));
    assert!(thread_ids.contains(&t2.id));
}

#[test]
fn set_thread_closed_at_round_trips() {
    let mut db = open_in_memory_db();
    let t = fresh_thread("x");
    db.upsert_thread(&t);
    let now = now_epoch_ms();
    db.set_thread_closed_at(t.id, Some(now), now);
    let back = db.thread_by_id(t.id).expect("present");
    assert_eq!(back.closed_at, Some(now));
    db.set_thread_closed_at(t.id, None, now + 1);
    let back = db.thread_by_id(t.id).expect("present");
    assert!(back.closed_at.is_none());
    assert_eq!(back.edited_at, now + 1);
}
