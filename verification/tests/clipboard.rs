use kept::clipboard::html::parse_html;
use kept::clipboard::plain::{from_plain_text, to_plain_text};
use kept::clipboard::{from_clipboard, to_html, BulletPayload, KeptPayload, SerLink, SerTarget};
use kept::ids::{id_text, new_id};

fn ser_link(start: usize, end: usize, url: &str) -> SerLink {
    SerLink {
        start,
        end,
        url: url.to_string(),
    }
}

#[test]
fn text_roundtrip_via_marker() {
    let p = KeptPayload::Text {
        text: "hello world".to_string(),
        links: vec![ser_link(6, 11, "https://example.com/")],
    };
    let html = to_html(&p);
    assert!(html.contains("data-kept-payload="));
    let back = from_clipboard(Some(&html), "");
    assert_eq!(back, p);
}

#[test]
fn outline_roundtrip_via_marker() {
    let p = KeptPayload::Outline {
        bullets: vec![
            BulletPayload {
                depth: 0,
                text: "alpha".into(),
                links: vec![],
            },
            BulletPayload {
                depth: 1,
                text: "beta".into(),
                links: vec![ser_link(0, 4, "https://x.com/")],
            },
            BulletPayload {
                depth: 0,
                text: "gamma".into(),
                links: vec![],
            },
        ],
    };
    let html = to_html(&p);
    let back = from_clipboard(Some(&html), "");
    assert_eq!(back, p);
}

#[test]
fn reference_roundtrip_via_marker() {
    let cell_id = new_id();
    let p = KeptPayload::Reference {
        target: SerTarget::Cell { cell_id },
        snippet: "Notes on Tuesday".into(),
    };
    let html = to_html(&p);
    let back = from_clipboard(Some(&html), "");
    assert_eq!(back, p);
    let text = to_plain_text(&p);
    assert!(text.contains(&format!("kept://{}", id_text(cell_id))));
}

#[test]
fn html_parses_google_docs_sibling_nested_list() {
    let html = r##"<meta charset="utf-8"><b style="font-weight:normal" id="docs-internal-guid-x">
<ul style="margin-top:0;margin-bottom:0">
<li dir="ltr" aria-level="1"><p dir="ltr" role="presentation"><span>alpha</span></p></li>
<ul style="margin-top:0;margin-bottom:0">
<li dir="ltr" aria-level="2"><p dir="ltr" role="presentation"><span>beta</span></p></li>
</ul>
<li dir="ltr" aria-level="1"><p dir="ltr" role="presentation"><span>gamma</span></p></li>
</ul>
</b>"##;
    match from_clipboard(Some(html), "") {
        KeptPayload::Outline { bullets } => {
            let depths: Vec<u32> = bullets.iter().map(|b| b.depth).collect();
            let texts: Vec<String> =
                bullets.iter().map(|b| b.text.clone()).collect();
            assert_eq!(depths, vec![0, 1, 0], "depths from sibling-nested Docs HTML");
            assert_eq!(texts, vec!["alpha", "beta", "gamma"]);
        }
        other => panic!("expected Outline, got {:?}", other),
    }
}

#[test]
fn html_parses_nested_list_to_outline() {
    let html = "<ul><li>top<ul><li>nested</li></ul></li><li>second</li></ul>";
    match from_clipboard(Some(html), "") {
        KeptPayload::Outline { bullets } => {
            assert_eq!(bullets.len(), 3);
            assert_eq!(bullets[0].depth, 0);
            assert_eq!(bullets[0].text, "top");
            assert_eq!(bullets[1].depth, 1);
            assert_eq!(bullets[1].text, "nested");
            assert_eq!(bullets[2].depth, 0);
            assert_eq!(bullets[2].text, "second");
        }
        other => panic!("expected Outline, got {:?}", other),
    }
}

#[test]
fn html_parses_paragraph_with_link_to_text() {
    let html = r#"<p>hello <a href="https://x.com/">there</a> world</p>"#;
    match from_clipboard(Some(html), "") {
        KeptPayload::Text { text, links } => {
            assert_eq!(text, "hello there world");
            assert_eq!(links.len(), 1);
            assert_eq!(links[0].url, "https://x.com/");
            assert_eq!(&text[links[0].start..links[0].end], "there");
        }
        other => panic!("expected Text, got {:?}", other),
    }
}

#[test]
fn plain_text_with_indents_parses_as_outline() {
    let text = "alpha\n    beta\n        gamma\n    delta";
    match from_plain_text(text) {
        KeptPayload::Outline { bullets } => {
            assert_eq!(bullets.len(), 4);
            assert_eq!(bullets[0].depth, 0);
            assert_eq!(bullets[1].depth, 1);
            assert_eq!(bullets[2].depth, 2);
            assert_eq!(bullets[3].depth, 1);
        }
        other => panic!("expected Outline, got {:?}", other),
    }
}

#[test]
fn plain_text_no_indent_is_text() {
    let text = "just one line of text";
    match from_plain_text(text) {
        KeptPayload::Text { text: t, .. } => assert_eq!(t, text),
        other => panic!("expected Text, got {:?}", other),
    }
}

#[test]
fn marker_wins_over_html_structure() {
    let cell_id = new_id();
    let p = KeptPayload::Reference {
        target: SerTarget::Cell { cell_id },
        snippet: "X".into(),
    };
    let html = format!("{}<ul><li>fake</li></ul>", to_html(&p));
    let back = from_clipboard(Some(&html), "");
    match back {
        KeptPayload::Reference { .. } => {}
        other => panic!("marker should have won, got {:?}", other),
    }
}

#[test]
fn html_outline_emits_nested_ul_for_nested_bullets() {
    let p = KeptPayload::Outline {
        bullets: vec![
            BulletPayload { depth: 0, text: "alpha".into(), links: vec![] },
            BulletPayload { depth: 1, text: "beta".into(), links: vec![] },
            BulletPayload { depth: 0, text: "gamma".into(), links: vec![] },
        ],
    };
    let html = to_html(&p);
    let visible_idx = html
        .find("<ul>")
        .expect("emit at least one <ul>");
    let visible = &html[visible_idx..];
    assert_eq!(
        visible,
        "<ul><li>alpha<ul><li>beta</li></ul></li><li>gamma</li></ul>",
        "outline must round-trip through a nested-ul HTML emission"
    );
}

#[test]
fn html_outline_roundtrip_without_marker_preserves_depths() {
    let original = vec![
        BulletPayload { depth: 0, text: "alpha".into(), links: vec![] },
        BulletPayload { depth: 1, text: "beta".into(), links: vec![] },
        BulletPayload { depth: 0, text: "gamma".into(), links: vec![] },
    ];
    let p = KeptPayload::Outline { bullets: original.clone() };
    let html = to_html(&p);
    let visible_idx = html.find("<ul>").unwrap();
    let visible = &html[visible_idx..];
    match parse_html(visible).unwrap() {
        KeptPayload::Outline { bullets } => {
            let depths: Vec<u32> = bullets.iter().map(|b| b.depth).collect();
            let texts: Vec<String> = bullets.iter().map(|b| b.text.clone()).collect();
            assert_eq!(depths, vec![0, 1, 0]);
            assert_eq!(texts, vec!["alpha", "beta", "gamma"]);
        }
        other => panic!("expected Outline, got {:?}", other),
    }
}

#[test]
fn bullet_prefix_stripped_in_plain_text_parse() {
    let text = "- alpha\n    - beta";
    match from_plain_text(text) {
        KeptPayload::Outline { bullets } => {
            assert_eq!(bullets[0].text, "alpha");
            assert_eq!(bullets[1].text, "beta");
        }
        other => panic!("expected Outline, got {:?}", other),
    }
}
