use kept::color::warnings::{is_known_key, PaletteWarning};
use kept::color::{parse_hex_color, Color, Palette};

#[test]
fn parse_hex_accepts_six_and_eight_digit() {
    let c6 = parse_hex_color("#1c1c1c").expect("6-digit");
    assert_eq!(c6.r, 0x1c);
    assert_eq!(c6.a, 0xff);
    let c8 = parse_hex_color("#1f90e040").expect("8-digit");
    assert_eq!(c8.r, 0x1f);
    assert_eq!(c8.a, 0x40);
}

#[test]
fn parse_hex_rejects_garbage() {
    assert!(parse_hex_color("nope").is_none());
    assert!(parse_hex_color("#zzzzzz").is_none());
    assert!(parse_hex_color("#12345").is_none());
}

#[test]
fn from_yaml_overrides_named_keys_only() {
    let yaml = r##"
        # comment
        text_primary: "#ff0000"
        bg_page: '#00ff00'
        unknown_key: "#abcdef"
    "##;
    let p = Palette::from_yaml(yaml);
    assert_eq!(p.text_primary, Color::from_rgb(255, 0, 0));
    assert_eq!(p.bg_page, Color::from_rgb(0, 255, 0));
    assert_eq!(p.bg_card, Palette::defaults().bg_card);
}

#[test]
fn defaults_yaml_round_trips() {
    let yaml = Palette::defaults_yaml();
    let parsed = Palette::from_yaml(&yaml);
    let defaults = Palette::defaults();
    assert_eq!(parsed.text_primary, defaults.text_primary);
    assert_eq!(parsed.embed_tint, defaults.embed_tint);
    assert_eq!(parsed.bg_card, defaults.bg_card);
}

#[test]
fn what_is_wrong_with_a_file_is_told() {
    let yaml = "# note\n\nbg_page \"#fff\"\nbg_page: '#12345'\nno_such: #ffffff\nbg_card: \"#102030\"\n";
    assert_eq!(
        Palette::warnings(yaml),
        vec![
            PaletteWarning::MissingColon { line: 3 },
            PaletteWarning::BadColor {
                line: 4,
                value: "#12345".to_string(),
                key: "bg_page".to_string(),
            },
            PaletteWarning::UnknownKey { key: "no_such".to_string() },
        ]
    );
    assert_eq!(Palette::from_yaml(yaml).bg_card, Color::from_rgb(16, 32, 48));
    assert!(Palette::warnings(&Palette::defaults_yaml()).is_empty());
    assert!(is_known_key("link_text"));
    assert!(!is_known_key("Link_text"));
}
