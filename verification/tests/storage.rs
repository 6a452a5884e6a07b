use kept::cell::outline::{Bullet, OutlineCell};
use kept::cell::reference::ReferenceTarget;
use kept::cell::textbox::TextBox;
use kept::cell::{Cell, CellKind};
use kept::document::{Context, Document};
use kept::entity_cache::{normalize_title_for_fallback, EntityCache};
use kept::ids::{id_text, new_id, parse_id};
use kept::json::Json;
use kept::persist::migrating::{extract_title_from_body_json, fill_tags_in_body_json};
use kept::persist::naming::{extract_display_name, normalize_alias, tag_names_from_persisted};
use kept::clipboard::SerTarget;
use kept::persist::records::{CellBody, PersistedCell};
use kept::persist::rows::{CellRow, LoadError};
use kept::persist::{ContextRef, Db, DbError};
use kept::thread::Thread;

const NOW: u64 = 1_000;

fn titled(body: &str, title: &str) -> Cell {
    let mut cell = Cell::new(body.to_string());
    let mut tb = TextBox::new(title.to_string());
    tb.set_force_heading(true);
    cell.set_title(Some(tb));
    cell
}

fn row(id: u128, timestamp: i64, body: &str) -> CellRow {
    CellRow {
        id,
        timestamp,
        body: body.to_string(),
        edited_at: timestamp,
        context_hint_id: None,
        scratch: false,
        inbox: false,
    }
}

fn thread(id: u128, title: &str, created_at: i64) -> Thread {
    Thread { id, title: title.to_string(), created_at, edited_at: created_at, closed_at: None }
}

#[test]
fn ids_are_spelled_and_read() {
    let id = 0x0123_4567_89ab_cdef_0123_4567_89ab_cdef;
    assert_eq!(id_text(id), "01234567-89ab-cdef-0123-456789abcdef");
    assert_eq!(parse_id("01234567-89AB-cdef-0123-456789abcdef"), Some(id));
    assert_eq!(parse_id("no id"), None);
    assert_ne!(new_id(), new_id());
}

#[test]
fn json_is_written_and_read() {
    let text = r#"{"b":[1,-2,null,true,"x\n\"é"],"a":{}}"#;
    let json = Json::parse(text).unwrap();
    assert_eq!(json.to_text(), text);
    assert!(Json::parse("{").is_none());
    assert!(Json::parse("").is_none());
}

#[test]
fn bodies_that_are_no_cell_do_not_load() {
    assert!(matches!(row(1, 0, "not json").load(NOW), Err(LoadError::Body)));
    assert!(matches!(row(1, 0, r#"{"kind":"other"}"#).load(NOW), Err(LoadError::Body)));
    let mut db = Db::new();
    db.put_cell_row(row(1, 0, "[]"));
    assert!(matches!(db.load_cells(NOW), Err(LoadError::Body)));
}

#[test]
fn tags_off_a_character_do_not_load() {
    let body = r#"{"kind":"plain","text":"é #a","links":[],"tags":[{"start":1,"end":4}]}"#;
    assert!(matches!(row(1, 0, body).load(NOW), Err(LoadError::Tag)));
    let body = r#"{"kind":"plain","text":"é #a","links":[],"tags":[{"start":3,"end":5}]}"#;
    let cell = row(1, 0, body).load(NOW).ok().unwrap();
    assert_eq!(cell.all_tag_names(), vec!["a"]);
}

#[test]
fn rows_come_in_the_order_of_time() {
    let mut db = Db::new();
    let body = r#"{"kind":"plain","text":"t","links":[],"tags":[]}"#;
    db.put_cell_row(row(3, 20, body));
    db.put_cell_row(row(2, 10, body));
    db.put_cell_row(row(1, 20, body));
    let ids: Vec<u128> = db.cell_rows().iter().map(|r| r.id).collect();
    assert_eq!(ids[0], 2);
    assert_eq!(ids.len(), 3);
    db.put_cell_row(row(2, 30, body));
    assert_eq!(db.cell_rows().len(), 3);
    assert_eq!(db.cell_rows()[2].id, 2);
}

#[test]
fn saved_cells_carry_their_tags() {
    let mut db = Db::new();
    let cell = titled("see #later", "Plan #work");
    db.save_cell(&cell, 5);
    assert_eq!(db.tags_for_cell(cell.id), vec!["work"]);
    assert_eq!(db.cells_with_tag("work"), vec![cell.id]);
    assert!(db.cells_with_tag("later").is_empty());
    db.delete_tag("work");
    assert!(db.tags_for_cell(cell.id).is_empty());
    db.delete_cell(cell.id, 6);
    assert!(!db.has_cell(cell.id));
}

#[test]
fn a_person_outlives_the_cell() {
    let mut db = Db::new();
    let cell = titled("notes", "Ada Lovelace #person");
    db.save_cell(&cell, 5);
    let all = db.all_entities();
    assert_eq!(all.len(), 1);
    assert_eq!(all[0].display_name, "Ada Lovelace");
    assert_eq!(all[0].kind, "person");
    assert_eq!(all[0].primary_cell_id, Some(cell.id));
    assert_eq!(db.cell_to_entity_index(), vec![(cell.id, all[0].id)]);
    let index = db.entity_alias_index();
    assert_eq!(index.len(), 1);
    assert_eq!(index[0].0, normalize_alias("Ada Lovelace"));
    db.set_entity_active(all[0].id, false, 6);
    db.save_cell(&cell, 7);
    assert!(!db.find_entity(all[0].id).unwrap().is_active);
    db.delete_cell(cell.id, 8);
    let left = db.find_entity(all[0].id).unwrap();
    assert_eq!(left.primary_cell_id, None);
    db.delete_entity(all[0].id);
    assert!(db.all_entities().is_empty());
    assert!(db.entity_alias_index().is_empty());
}

#[test]
fn people_need_an_identity_of_their_own() {
    let mut db = Db::new();
    assert!(db.insert_person_entity_with_id(9, "Ada", true, 1, 1).is_ok());
    assert!(matches!(db.insert_person_entity_with_id(9, "Bob", true, 1, 1), Err(DbError::Taken)));
    assert!(matches!(db.rename_person_entity(8, "Bob", 2), Err(DbError::Missing)));
    assert!(db.rename_person_entity(9, "Ada L", 2).is_ok());
    assert_eq!(db.find_entity(9).unwrap().display_name, "Ada L");
    let other = db.create_cell_less_person_entity("Bob", 3).ok().unwrap();
    assert_eq!(db.all_entities().len(), 2);
    assert_ne!(other, 9);
}

#[test]
fn threads_need_their_cell() {
    let mut db = Db::new();
    let target = ReferenceTarget::WholeCell(1);
    assert!(matches!(db.attach_thread(7, target, 1), Err(DbError::Missing)));
    db.upsert_thread(&thread(7, "t", 1));
    assert!(matches!(db.attach_thread(7, target, 1), Err(DbError::Missing)));
    assert!(matches!(db.set_bullet_memberships(1, 2, &[(7, 1)]), Err(DbError::Missing)));
    assert!(db.thread_by_id(8).is_none());
}

#[test]
fn contexts_are_saved_and_deleted() {
    let mut db = Db::new();
    db.save_context(&ContextRef { id: 2, start_time: 20, end_time: None, title: Some("late") });
    db.save_context(&ContextRef { id: 1, start_time: 10, end_time: Some(15), title: None });
    let rows = db.load_contexts();
    assert_eq!(rows.iter().map(|c| c.id).collect::<Vec<u128>>(), vec![1, 2]);
    assert_eq!(rows[1].title, Some("late".to_string()));
    db.delete_context(2);
    assert_eq!(db.load_contexts().len(), 1);
}

#[test]
fn old_tables_are_brought_up_to_date() {
    let mut db = Db::new();
    let id = new_id();
    db.put_cell_row(row(id, 5, r##"{"kind":"plain","text":"# Ada #person\nnotes","links":[]}"##));
    assert!(db.migrate(2, 9).is_ok());
    let cells = db.load_cells(NOW).ok().unwrap();
    assert_eq!(cells[0].heading_title(), Some("Ada".to_string()));
    assert_eq!(cells[0].full_text(), "Ada #person\nnotes");
    assert_eq!(db.tags_for_cell(id), vec!["person"]);
    assert_eq!(db.all_entities()[0].display_name, "Ada");
    let rows: Vec<String> = db.cell_rows().into_iter().map(|r| r.body).collect();
    assert!(db.migrate(10, 10).is_ok());
    let again: Vec<String> = db.cell_rows().into_iter().map(|r| r.body).collect();
    assert_eq!(rows, again);
}

#[test]
fn titles_and_tags_are_migrated_once() {
    let old = r##"{"kind":"plain","text":"# Ada #person\nnotes","links":[]}"##;
    let once = extract_title_from_body_json(old).unwrap();
    assert!(extract_title_from_body_json(&once).is_none());
    assert!(extract_title_from_body_json("not json").is_none());
    let filled = fill_tags_in_body_json(&once).unwrap();
    let stored = PersistedCell::parse(&filled).unwrap();
    assert_eq!(tag_names_from_persisted(&stored), vec!["person"]);
    assert_eq!(fill_tags_in_body_json(&filled).unwrap(), filled);
}

#[test]
fn display_names_leave_out_tags() {
    assert_eq!(extract_display_name("Ada Lovelace #person"), Some("Ada Lovelace".to_string()));
    assert_eq!(extract_display_name("#person"), None);
    assert_eq!(extract_display_name("  Patrick Foy #person"), Some("Patrick Foy".to_string()));
    assert_eq!(normalize_title_for_fallback("Ada Lovelace"), "adalovelace");
}

#[test]
fn a_new_cell_stands_where_its_time_says() {
    let mut doc = Document::new();
    let mut late = Cell::new("late".to_string());
    late.timestamp = 20;
    let mut early = Cell::new("early".to_string());
    early.timestamp = 10;
    let (late_id, early_id) = (late.id, early.id);
    assert_eq!(doc.insert_cell_sorted(late), 0);
    assert_eq!(doc.insert_cell_sorted(early), 0);
    assert_eq!(doc.cell_idx(late_id), Some(1));
    doc.touch_cell_at(early_id, 30);
    assert_eq!(doc.cell(early_id).unwrap().edited_at, 30);
    assert!(doc.dirty_cells.contains(&early_id));
    let gone = doc.queue_cell_delete(early_id).unwrap();
    assert_eq!(gone.id, early_id);
    assert!(doc.cell(early_id).is_none());
    assert!(doc.pending_deletes.contains(&early_id));
    assert!(!doc.dirty_cells.contains(&early_id));
    assert!(doc.queue_cell_delete(early_id).is_none());
}

#[test]
fn deleted_contexts_are_queued() {
    let mut doc = Document::new();
    doc.contexts.push(Context { id: 4, start_time: 1, end_time: None, title: None });
    doc.mark_context_dirty(4);
    assert!(doc.dirty_contexts.contains(&4));
    assert!(doc.queue_context_delete(4));
    assert!(doc.pending_context_deletes.contains(&4));
    assert!(!doc.queue_context_delete(4));
}

#[test]
fn mentions_are_counted() {
    let mut db = Db::new();
    let ada = titled("notes", "Ada #person");
    db.save_cell(&ada, 5);
    let entity = db.all_entities()[0].id;
    let mut note = Cell::new("ask Ada".to_string());
    note.add_link_to_first(4..7, format!("kept://{}", id_text(entity)));
    let cells = vec![ada, note];
    let cache = EntityCache::load(Some(&db), &cells);
    assert_eq!(cache.mention_count(entity), 1);
    assert_eq!(cache.mention_count(new_id()), 0);
    assert_eq!(cache.title_fallback, vec![(entity, "ada".to_string())]);
    let none = EntityCache::load(None, &cells);
    assert!(none.entities.is_empty());
}

#[test]
fn stored_outlines_keep_their_order() {
    let bullets = vec![
        Bullet::new(1, TextBox::new("one".to_string()), 0),
        Bullet::new(2, TextBox::new("two".to_string()), 1),
    ];
    let mut cell = Cell::new_outline();
    cell.kind = CellKind::Outline(OutlineCell::from_bullets(bullets));
    let back = CellRow::of_cell(&cell).load(NOW).ok().unwrap();
    assert_eq!(back.full_text(), cell.full_text());
    assert_eq!(back.id, cell.id);
}

#[test]
fn saved_threads_keep_when_they_were_made() {
    let mut db = Db::new();
    db.upsert_thread(&thread(7, "first", 10));
    db.upsert_thread(&thread(8, "other", 11));
    db.upsert_thread(&thread(7, "second", 20));
    let back = db.thread_by_id(7).unwrap();
    assert_eq!((back.title.as_str(), back.created_at, back.edited_at), ("second", 10, 20));
    assert_eq!(db.thread_by_id(8).unwrap().title, "other");
    db.delete_thread(7);
    assert!(db.thread_by_id(7).is_none());
    assert_eq!(db.all_threads().len(), 1);
}

#[test]
fn records_may_be_lists() {
    let p = PersistedCell::parse(
        r#"{"title":["T",[[0,1,"u"]]],"kind":"outline","blocks":[["00000000-0000-0000-0000-000000000007",2,"b"]],"reference_header":["cell","00000000-0000-0000-0000-000000000009"]}"#,
    )
    .expect("a cell");
    let title = p.title.expect("a title");
    assert_eq!(title.text, "T");
    assert_eq!(title.links.len(), 1);
    assert_eq!((title.links[0].start, title.links[0].end, title.links[0].url.as_str()), (0, 1, "u"));
    match p.body {
        CellBody::Outline { blocks, reference_header } => {
            assert_eq!(blocks.len(), 1);
            assert_eq!((blocks[0].id, blocks[0].depth, blocks[0].text.as_str()), (7, 2, "b"));
            assert!(blocks[0].active);
            assert_eq!(reference_header, Some(SerTarget::Cell { cell_id: 9 }));
        }
        _ => panic!("an outline"),
    }
    assert!(PersistedCell::parse(r#"{"title":["T",[],[],1],"kind":"plain","text":"x"}"#).is_none());
    assert!(PersistedCell::parse(r#"["plain","x"]"#).is_none());
    let p = PersistedCell::parse(
        r#"{"kind":4,"target":[1,"00000000-0000-0000-0000-000000000003","00000000-0000-0000-0000-000000000004"]}"#,
    )
    .expect("a cell");
    assert!(matches!(
        p.body,
        CellBody::Reference { target: SerTarget::Subtree { cell_id: 3, bullet_id: 4 } }
    ));
    assert!(PersistedCell::parse(r#"{"kind":5,"text":"x"}"#).is_none());
}

#[test]
fn a_tag_of_one_byte_may_lie_within_a_character() {
    let mut db = Db::new();
    db.put_cell_row(CellRow {
        id: 1,
        timestamp: 0,
        body: "{\"kind\":\"plain\",\"text\":\"\u{e4}\",\"tags\":[{\"start\":1,\"end\":2}]}".to_string(),
        edited_at: 0,
        context_hint_id: None,
        scratch: false,
        inbox: false,
    });
    assert!(db.migrate(2, 0).is_ok());
    let mut db = Db::new();
    db.put_cell_row(CellRow {
        id: 1,
        timestamp: 0,
        body: "{\"kind\":\"plain\",\"text\":\"\u{e4}a\",\"tags\":[{\"start\":1,\"end\":3}]}".to_string(),
        edited_at: 0,
        context_hint_id: None,
        scratch: false,
        inbox: false,
    });
    assert!(db.migrate(2, 0).is_err());
}

#[test]
fn a_person_is_added_where_there_is_none() {
    let mut db = Db::new();
    let id = db.create_cell_less_person_entity("Ada", 5).expect("a person");
    let people = &db.entities;
    assert_eq!(people.len(), 1);
    assert_eq!((people[0].id, people[0].display_name.as_str(), people[0].is_active), (id, "Ada", true));
    assert_eq!(db.insert_person_entity_with_id(id, "Eve", true, 6, 6), Err(DbError::Taken));
    assert_eq!(db.entities.len(), 1);
}

#[test]
fn titles_take_links_that_run_backwards() {
    let body = |end: usize| {
        format!("{{\"kind\":\"plain\",\"text\":\"# abc\",\"links\":[{{\"start\":4,\"end\":{end},\"url\":\"u\"}}]}}")
    };
    let p = PersistedCell::parse(&extract_title_from_body_json(&body(3)).expect("a title")).expect("a cell");
    let title = p.title.expect("a title");
    assert_eq!(title.text, "abc");
    assert_eq!((title.links[0].start, title.links[0].end), (2, 1));
    assert!(extract_title_from_body_json(&body(1)).is_none());
}
