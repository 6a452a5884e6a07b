use kept::cell::textbox::TextBox;
use kept::cell::Cell;
use chrono::Datelike;
use kept::date::{current_year, local_date_for_ms, Date};
use kept::ids::{id_text, new_id};
use kept::query::matching;
use kept::query::matching::{resolve_persons, resolve_time, MatchContext};
use kept::query::{parse, to_text, Ast, EntityKind, EntityRef, Filters, TimeFilter};

fn day(y: i32, m: u32, d: u32) -> Date {
    Date::from_ymd_opt(y, m, d).unwrap()
}

#[test]
fn parse_empty() {
    assert_eq!(parse(""), Ast::default());
}

#[test]
fn parse_tags() {
    let ast = parse("#bug -#stale");
    assert_eq!(ast.includes.tags, vec!["bug".to_string()]);
    assert_eq!(ast.excludes.tags, vec!["stale".to_string()]);
    assert!(ast.text.is_empty());
}

#[test]
fn parse_entities() {
    let ast = parse("@sam @mike -@bot");
    assert_eq!(
        ast.includes.entities,
        vec![
            EntityRef { kind: EntityKind::Person, id: "sam".into() },
            EntityRef { kind: EntityKind::Person, id: "mike".into() },
        ]
    );
    assert_eq!(
        ast.excludes.entities,
        vec![EntityRef { kind: EntityKind::Person, id: "bot".into() }]
    );
}

#[test]
fn parse_today_with_text() {
    let ast = parse("today login crash");
    assert_eq!(ast.includes.time, Some(TimeFilter::Today));
    assert_eq!(ast.text, "login crash");
}

#[test]
fn parse_explicit_date() {
    let ast = parse("2026-04-30");
    assert_eq!(ast.includes.time, Some(TimeFilter::Day(day(2026, 4, 30))));
}

#[test]
fn parse_short_date_uses_current_year() {
    let ast = parse("04-30");
    let year = chrono::Local::now().year();
    assert_eq!(ast.includes.time, Some(TimeFilter::Day(day(year, 4, 30))));
}

#[test]
fn parse_range() {
    let ast = parse("2026-01-01..2026-01-31");
    assert_eq!(
        ast.includes.time,
        Some(TimeFilter::Range(day(2026, 1, 1), day(2026, 1, 31)))
    );
}

#[test]
fn parse_last_week() {
    let ast = parse("last week");
    assert_eq!(ast.includes.time, Some(TimeFilter::LastWeek));
    assert!(ast.text.is_empty());
}

#[test]
fn parse_thread_sigil_falls_through_as_text() {
    let ast = parse("%foo bar");
    assert_eq!(ast.text, "%foo bar");
    assert!(ast.includes.entities.is_empty());
}

#[test]
fn parse_combined() {
    let ast = parse("#person today @mike crash");
    assert_eq!(ast.includes.tags, vec!["person".to_string()]);
    assert_eq!(ast.includes.time, Some(TimeFilter::Today));
    assert_eq!(
        ast.includes.entities,
        vec![EntityRef { kind: EntityKind::Person, id: "mike".into() }]
    );
    assert_eq!(ast.text, "crash");
}

fn roundtrip(input: &str) {
    let ast = parse(input);
    let text = to_text(&ast);
    let reparsed = parse(&text);
    assert_eq!(
        ast, reparsed,
        "round-trip failed for input {:?}: text={:?}",
        input, text
    );
}

#[test]
fn roundtrip_empty() {
    roundtrip("");
}

#[test]
fn roundtrip_tags() {
    roundtrip("#bug -#stale");
}

#[test]
fn roundtrip_entities() {
    roundtrip("@sam -@bot");
}

#[test]
fn roundtrip_time_today() {
    roundtrip("today");
}

#[test]
fn roundtrip_time_explicit() {
    roundtrip("2026-04-30");
}

#[test]
fn roundtrip_time_range() {
    roundtrip("2026-01-01..2026-01-31");
}

#[test]
fn roundtrip_last_week() {
    roundtrip("last week");
}

#[test]
fn roundtrip_combined() {
    roundtrip("#person today @mike login crash");
}

#[test]
fn resolve_today() {
    let t = day(2026, 4, 30);
    assert_eq!(resolve_time(&TimeFilter::Today, t), (t, day(2026, 5, 1)));
}

#[test]
fn resolve_yesterday() {
    let t = day(2026, 4, 30);
    assert_eq!(
        resolve_time(&TimeFilter::Yesterday, t),
        (day(2026, 4, 29), t)
    );
}

#[test]
fn resolve_this_week_starts_monday() {
    let t = day(2026, 4, 30);
    assert_eq!(
        resolve_time(&TimeFilter::ThisWeek, t),
        (day(2026, 4, 27), day(2026, 5, 4))
    );
}

#[test]
fn resolve_range_inclusive() {
    let t = day(2026, 4, 30);
    assert_eq!(
        resolve_time(&TimeFilter::Range(day(2026, 4, 1), day(2026, 4, 3)), t),
        (day(2026, 4, 1), day(2026, 4, 4))
    );
}

fn person_ref(id: &str) -> EntityRef {
    EntityRef {
        kind: EntityKind::Person,
        id: id.to_string(),
    }
}

#[test]
fn resolve_alias_match_returns_entity_id() {
    let entity_id = new_id();
    let cell_id = new_id();
    let alias_index = vec![("patrick_foy".to_string(), entity_id, "person".to_string())];
    let title_fallback = vec![(cell_id, "patrickfoy".to_string())];
    let got = resolve_persons(&[person_ref("Patrick_Foy")], &alias_index, &title_fallback);
    assert_eq!(got, vec![entity_id]);
}

#[test]
fn resolve_excludes_non_person_kinds() {
    let thread_id = new_id();
    let alias_index = vec![("login_bug".to_string(), thread_id, "thread".to_string())];
    let got = resolve_persons(&[person_ref("login_bug")], &alias_index, &[]);
    assert!(got.is_empty());
}

#[test]
fn resolve_title_fallback_returns_entity_id() {
    let entity_id = new_id();
    let title_fallback = vec![(entity_id, "patrickfoy".to_string())];
    let got = resolve_persons(&[person_ref("patrick")], &[], &title_fallback);
    assert_eq!(got, vec![entity_id]);
}

#[test]
fn resolve_title_fallback_only_has_entities() {
    let got = resolve_persons(&[person_ref("patrick")], &[], &[]);
    assert!(got.is_empty());
}

#[test]
fn resolve_alias_wins_over_fallback() {
    let alias_entity = new_id();
    let fallback_entity = new_id();
    let alias_index = vec![
        ("patrick_foy".to_string(), alias_entity, "person".to_string()),
    ];
    let title_fallback = vec![(fallback_entity, "patrickfoy".to_string())];
    let got = resolve_persons(&[person_ref("patrick")], &alias_index, &title_fallback);
    assert_eq!(got, vec![alias_entity]);
}

fn make_cell(body: &str, title: Option<&str>, ts_ms: i64) -> Cell {
    let mut cell = Cell::new(body.to_string());
    cell.timestamp = ts_ms;
    cell.edited_at = ts_ms;
    if let Some(t) = title {
        let mut tb = TextBox::new(t.to_string());
        tb.set_force_heading(true);
        cell.set_title(Some(tb));
    }
    cell
}

fn empty_ctx(today: Date) -> MatchContext {
    MatchContext {
        today,
        person_targets: Vec::new(),
        person_excludes: Vec::new(),
    }
}

#[test]
fn matches_tag_include_requires_all_listed_tags() {
    let cell = make_cell("body", Some("Standup #urgent #planning"), 0);
    let ctx = empty_ctx(day(2026, 1, 1));
    assert!(matching::matches(&parse("#urgent"), &cell, &ctx), "single tag hit");
    assert!(
        matching::matches(&parse("#urgent #planning"), &cell, &ctx),
        "all tags present → match"
    );
    assert!(
        !matching::matches(&parse("#urgent #missing"), &cell, &ctx),
        "missing one tag → no match"
    );
}

#[test]
fn matches_tag_exclude_filters_out_cells_with_listed_tag() {
    let cell = make_cell("body", Some("Note #stale"), 0);
    let ctx = empty_ctx(day(2026, 1, 1));
    assert!(
        !matching::matches(&parse("-#stale"), &cell, &ctx),
        "excluded tag present → no match"
    );
    let untagged = make_cell("body", Some("Note"), 0);
    assert!(
        matching::matches(&parse("-#stale"), &untagged, &ctx),
        "no excluded tag → match"
    );
}

#[test]
fn matches_time_filter_day_constrains_to_that_local_date() {
    let jan1_noon = 1_767_268_800_000_i64;
    let jan2_noon = 1_767_355_200_000_i64;
    let cell1 = make_cell("note", None, jan1_noon);
    let cell2 = make_cell("note", None, jan2_noon);
    let cell1_local = local_date_for_ms(jan1_noon);
    let ast = Ast {
        includes: Filters {
            time: Some(TimeFilter::Day(cell1_local)),
            ..Default::default()
        },
        ..Default::default()
    };
    let ctx = empty_ctx(cell1_local);
    assert!(matching::matches(&ast, &cell1, &ctx), "cell on the day matches");
    assert!(
        !matching::matches(&ast, &cell2, &ctx),
        "cell on different day excluded"
    );
}

#[test]
fn matches_entity_include_requires_kept_link_to_person() {
    let alice_id = new_id();
    let bob_id = new_id();
    let mut cell = Cell::new("hi @Alice".to_string());
    cell.add_link_to_first(3..9, format!("kept://{}", id_text(alice_id)));
    let ast = Ast {
        includes: Filters {
            entities: vec![EntityRef {
                kind: EntityKind::Person,
                id: "alice".to_string(),
            }],
            ..Default::default()
        },
        ..Default::default()
    };
    let ctx_alice = MatchContext {
        today: day(2026, 1, 1),
        person_targets: vec![alice_id],
        person_excludes: Vec::new(),
    };
    let ctx_bob = MatchContext {
        today: day(2026, 1, 1),
        person_targets: vec![bob_id],
        person_excludes: Vec::new(),
    };
    assert!(matching::matches(&ast, &cell, &ctx_alice), "kept link to Alice → match");
    assert!(
        !matching::matches(&ast, &cell, &ctx_bob),
        "kept link is to Alice, not Bob → no match"
    );
}

#[test]
fn matches_free_text_substring_is_case_insensitive() {
    let cell = make_cell("Some Body Of Text", None, 0);
    let ctx = empty_ctx(day(2026, 1, 1));
    assert!(matching::matches(&parse("body of"), &cell, &ctx), "substring hit");
    assert!(
        matching::matches(&parse("BODY OF"), &cell, &ctx),
        "case-insensitive"
    );
    assert!(
        !matching::matches(&parse("missing"), &cell, &ctx),
        "no substring → no match"
    );
}

#[test]
fn resolve_falls_back_only_for_refs_with_zero_alias_hits() {
    let patrick_id = new_id();
    let dana_id = new_id();
    let alias_index = vec![
        ("patrick_foy".to_string(), patrick_id, "person".to_string()),
    ];
    let title_fallback = vec![(dana_id, "danadoe".to_string())];
    let got = resolve_persons(
        &[person_ref("patrick"), person_ref("dana")],
        &alias_index,
        &title_fallback,
    );
    assert!(got.contains(&patrick_id));
    assert!(got.contains(&dana_id));
}

#[test]
fn an_alias_keeps_titles_out_for_every_name_it_holds() {
    let (a, b) = (new_id(), new_id());
    let alias_index = vec![("patrick_foy".to_string(), a, "person".to_string())];
    let title_fallback = vec![(b, "foybrown".to_string())];
    let got = resolve_persons(
        &[person_ref("patrick"), person_ref("foy")],
        &alias_index,
        &title_fallback,
    );
    assert_eq!(got, vec![a]);
}

#[test]
fn a_week_is_read_around_what_stands_between_its_words() {
    let ast = parse("last #x week");
    assert_eq!(ast.includes.time, Some(TimeFilter::LastWeek));
    assert_eq!(ast.includes.tags, vec!["x".to_string()]);
    assert_eq!(ast.text, "");
    roundtrip("last #x week");
    roundtrip("last last week week");
    roundtrip("this this week");
    roundtrip("#FOO @Bar -#Baz -@QuX Some TEXT 2026-01-02");
}

#[test]
fn names_to_compare_are_squeezed_once() {
    let key = kept::query::matching::normalize_entity_token("Patrick_\u{a0} FOY\u{c4}");
    assert_eq!(key, "patrickfoy\u{c4}");
    assert_eq!(kept::query::matching::normalize_entity_token(&key), key);
    assert_eq!(kept::entity_cache::normalize_title_for_fallback("Ada _Love lace"), "adalovelace");
}

#[test]
fn the_current_year_is_that_of_the_clock() {
    assert_eq!(current_year(), chrono::Local::now().year());
}
