use kept::clipboard::html::{parse_html, trim_normalize};
use kept::clipboard::markup::render_text_with_links;
use kept::clipboard::plain::{from_plain_text, split_lines, to_plain_text};
use kept::clipboard::{extract_payload_marker, from_any_clipboard, from_clipboard, payload_marker, to_html, BulletPayload, KeptPayload, SerLink, SerTarget};
use kept::color::{black_alpha, color_to_hex, parse_hex_color, poll_due, Color, Palette};
use kept::date::{local_date_for_ms, Date};
use kept::query::matching::{normalize_entity_token, parse_kept_entity_url};
use kept::query::{parse, parse_in, to_text, Ast, TimeFilter};
use kept::words::split_words;

fn text(s: &str) -> KeptPayload {
    KeptPayload::Text { text: s.to_string(), links: Vec::new() }
}

#[test]
fn every_payload_is_read_out_of_its_html() {
    let all = vec![
        text("a < b & \"c\" é\n"),
        KeptPayload::Text {
            text: "see it".to_string(),
            links: vec![SerLink { start: 4, end: 6, url: "https://x/?a=1&b=2".to_string() }],
        },
        KeptPayload::Outline {
            bullets: vec![BulletPayload { depth: 2, text: "deep".to_string(), links: Vec::new() }],
        },
        KeptPayload::Reference { target: SerTarget::Subtree { cell_id: 3, bullet_id: 4 }, snippet: "s".to_string() },
    ];
    for p in all {
        let html = to_html(&p);
        assert_eq!(extract_payload_marker(&html), Some(p.clone()));
        assert_eq!(from_clipboard(Some(&html), "other"), p);
    }
}

#[test]
fn broken_markers_are_passed_over() {
    assert_eq!(extract_payload_marker("<p>none</p>"), None);
    assert_eq!(extract_payload_marker("<meta data-kept-payload=\"???\">"), None);
    assert_eq!(from_clipboard(None, "plain"), text("plain"));
}

#[test]
fn escaped_text_holds_no_markup() {
    let html = to_html(&text("<b>&"));
    assert!(html.contains("&lt;b&gt;&amp;"));
    assert!(!html.contains("<b>"));
}

#[test]
fn html_without_text_is_nothing() {
    assert!(parse_html("").is_none());
    assert!(parse_html("<p>  </p>").is_none());
    assert_eq!(parse_html("one<br>two").unwrap(), text("one\ntwo"));
}

#[test]
fn names_of_elements_have_no_case() {
    match parse_html("<UL><LI>a<OL><LI>b</LI></OL></LI></UL>").unwrap() {
        KeptPayload::Outline { bullets } => {
            let found: Vec<(u32, &str)> = bullets.iter().map(|b| (b.depth, b.text.as_str())).collect();
            assert_eq!(found, vec![(0, "a"), (1, "b")]);
        }
        other => panic!("{:?}", other),
    }
}

#[test]
fn outlines_are_indented_in_plain_text() {
    let p = KeptPayload::Outline {
        bullets: vec![
            BulletPayload { depth: 0, text: "one".to_string(), links: Vec::new() },
            BulletPayload { depth: 1, text: "two".to_string(), links: Vec::new() },
        ],
    };
    let plain = to_plain_text(&p);
    match from_plain_text(&plain) {
        KeptPayload::Outline { bullets } => {
            assert_eq!(bullets.len(), 2);
            assert_eq!(bullets[1].depth, 1);
            assert_eq!(bullets[1].text, "two");
        }
        other => panic!("{:?}", other),
    }
    assert_eq!(split_lines("a\nb\n"), vec![(0, 1), (2, 3)]);
}

#[test]
fn colors_are_spelled_and_read() {
    for c in [Color::from_rgb(1, 2, 3), Color::from_argb(0x40, 0xab, 0, 0xff)] {
        assert_eq!(parse_hex_color(&color_to_hex(c)), Some(c));
    }
    assert_eq!(color_to_hex(Color::from_rgb(255, 0, 16)), "#ff0010");
    assert_eq!(parse_hex_color("#FF0010"), Some(Color::from_rgb(255, 0, 16)));
    assert_eq!(black_alpha(7), Color::from_argb(7, 0, 0, 0));
}

#[test]
fn palettes_keep_what_a_file_does_not_say() {
    let d = Palette::defaults();
    let p = Palette::from_yaml("");
    assert_eq!(p.bg_page, d.bg_page);
    let mut q = Palette::defaults();
    q.set("bg_page", Color::from_rgb(9, 9, 9));
    let back = Palette::from_yaml(&q.to_yaml());
    assert_eq!(back.bg_page, Color::from_rgb(9, 9, 9));
    assert_eq!(back.text_primary, d.text_primary);
    assert_eq!(d.accent_blue_alpha(3).a, 3);
    assert!(poll_due(u64::MAX));
    assert!(!poll_due(0));
}

#[test]
fn dates_follow_the_calendar() {
    assert!(Date::from_ymd_opt(2024, 2, 29).is_some());
    assert!(Date::from_ymd_opt(2023, 2, 29).is_none());
    assert!(Date::from_ymd_opt(2023, 13, 1).is_none());
    let d = Date::from_ymd_opt(2024, 2, 28).unwrap();
    assert_eq!(d.plus(2), Date::from_ymd_opt(2024, 3, 1).unwrap());
    assert_eq!(d.plus(-59), Date::from_ymd_opt(2023, 12, 31).unwrap());
    assert_eq!(d.weekday(), 2);
    assert!(d.before(d.plus(1)));
    assert!(!d.before(d));
    assert_eq!(d.to_iso(), "2024-02-28");
    assert_eq!(local_date_for_ms(1_767_268_800_000).year / 10, 202);
    let none = Date::from_ymd_opt(1970, 1, 1).unwrap();
    assert_eq!(local_date_for_ms(i64::MAX), none);
    assert_eq!(local_date_for_ms(i64::MIN), none);
    assert_eq!(local_date_for_ms(8_210_266_000_000_000).year, 262142);
}

#[test]
fn an_empty_query_asks_for_nothing() {
    assert!(Ast::default().is_empty());
    assert!(parse("  ").is_empty());
    assert!(!parse("x").is_empty());
}

#[test]
fn queries_read_the_year_that_they_are_given() {
    let ast = parse_in("04-30", 2020);
    let date = Date::from_ymd_opt(2020, 4, 30).unwrap();
    assert_eq!(ast.includes.time, Some(TimeFilter::Day(date)));
    assert_eq!(parse_in("02-30", 2020).text, "02-30");
}

#[test]
fn queries_are_written_in_one_order() {
    let ast = parse("crash @Mike #Bug yesterday -#old");
    let written = to_text(&ast);
    assert_eq!(parse(&written), ast);
    assert_eq!(to_text(&parse(&written)), written);
    assert_eq!(ast.includes.entities[0].id, "mike");
}

#[test]
fn entities_are_found_by_their_address() {
    assert_eq!(parse_kept_entity_url("kept://00000000-0000-0000-0000-00000000000a"), Some(10));
    assert_eq!(parse_kept_entity_url("https://x"), None);
    assert_eq!(normalize_entity_token("Ada_Lovelace"), "adalovelace");
}

#[test]
fn words_are_parted_by_white_space() {
    assert_eq!(split_words("  one\ttwo "), vec![(2, 5), (6, 9)]);
    assert_eq!(split_words("à b"), vec![(0, 2), (3, 4)]);
    assert!(split_words(" ").is_empty());
}

#[test]
fn a_palette_is_read_out_of_its_file() {
    let mut p = Palette::defaults();
    let keys = ["bg_page", "text_primary", "embed_tint", "shadow_menu", "dark_alpha_base"];
    for (k, key) in keys.iter().enumerate() {
        p.set(key, Color::from_argb(10 + k as u8, 1, 2, k as u8));
    }
    let file = p.to_yaml();
    let back = Palette::from_yaml(&file);
    assert_eq!(back.to_yaml(), file);
    assert_eq!(back.embed_tint, Color::from_argb(12, 1, 2, 2));
    assert_eq!(back.dark_alpha_base, Color::from_argb(14, 1, 2, 4));
    assert_eq!(back.bg_card, Palette::defaults().bg_card);
}

#[test]
fn payloads_of_lists_are_read() {
    let read = |json: &str| {
        let j = kept::json::Json::parse(json).expect("json");
        KeptPayload::from_json(&j)
    };
    assert_eq!(
        read(r#"["text","ab",[[0,1,"u"]]]"#),
        Some(KeptPayload::Text {
            text: "ab".to_string(),
            links: vec![SerLink { start: 0, end: 1, url: "u".to_string() }],
        })
    );
    assert_eq!(
        read(r#"["outline",[[3,"b",[]]]]"#),
        Some(KeptPayload::Outline {
            bullets: vec![BulletPayload { depth: 3, text: "b".to_string(), links: vec![] }],
        })
    );
    assert_eq!(
        read(
            r#"["reference",["subtree","00000000-0000-0000-0000-000000000001","00000000-0000-0000-0000-000000000002"],"s"]"#
        ),
        Some(KeptPayload::Reference {
            target: SerTarget::Subtree { cell_id: 1, bullet_id: 2 },
            snippet: "s".to_string(),
        })
    );
    assert_eq!(read(r#"["text","ab",[],1]"#), None);
    assert_eq!(read(r#"["text","ab"]"#), None);
    assert_eq!(read("[]"), None);
}

#[test]
fn a_marker_decides_whatever_follows() {
    let p = KeptPayload::Text {
        text: "\u{e4}".to_string(),
        links: vec![SerLink { start: 1, end: 9, url: "u".to_string() }],
    };
    let mut html = payload_marker(&p);
    html.push_str("<p>else</p><span data-kept-payload=\"x\"></span>");
    assert_eq!(from_clipboard(Some(&html), "other"), p);
    assert_eq!(from_any_clipboard(Some(&html), "other"), Some(p));
    assert_eq!(from_any_clipboard(None, "plain"), Some(text("plain")));
}

#[test]
fn links_are_anchors_in_the_order_of_their_starts() {
    let first = SerLink { start: 0, end: 1, url: "a\"b".to_string() };
    let second = SerLink { start: 2, end: 4, url: "c".to_string() };
    let html = "<a href=\"a&quot;b\">x</a>&amp;<a href=\"c\">&lt;y</a>z";
    assert_eq!(render_text_with_links("x&<yz", &vec![first.clone(), second.clone()]), html);
    assert_eq!(render_text_with_links("x&<yz", &vec![second, first]), html);
}

#[test]
fn white_space_is_made_simple_once() {
    let simple = trim_normalize(" a\t\n b\u{a0}c ");
    assert_eq!(simple, "a b c");
    assert_eq!(trim_normalize(&simple), simple);
}

#[test]
fn days_are_counted_over_months_and_leap_years() {
    assert_eq!(Date::from_ymd_opt(2024, 2, 28).unwrap().plus(2), Date::from_ymd_opt(2024, 3, 1).unwrap());
    assert_eq!(Date::from_ymd_opt(2023, 2, 28).unwrap().plus(1), Date::from_ymd_opt(2023, 3, 1).unwrap());
    assert_eq!(Date::from_ymd_opt(2000, 1, 1).unwrap().plus(-1), Date::from_ymd_opt(1999, 12, 31).unwrap());
    assert_eq!(Date::from_ymd_opt(1970, 1, 1).unwrap().plus(20_000), Date::from_ymd_opt(2024, 10, 4).unwrap());
}

#[test]
fn links_that_are_not_cut_out_may_stand_anywhere() {
    let whole = SerLink { start: 0, end: 2, url: "a".to_string() };
    let back = SerLink { start: 1, end: 0, url: "b".to_string() };
    assert_eq!(
        render_text_with_links("\u{e9}", &vec![whole, back]),
        "<a href=\"a\">\u{e9}</a>\u{e9}"
    );
}
