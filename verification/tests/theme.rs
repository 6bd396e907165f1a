use sola::theme::{parse_hex_color, Theme};

#[test]
fn default_theme_has_required_semantic_fields() {
    let theme = Theme::sola_dark();

    assert_eq!(theme.name, "sola-dark");
    assert!(theme.palette.app_background.starts_with('#'));
    assert!(theme.palette.focused_border.starts_with('#'));
    assert!(theme.typography.title_size > theme.typography.body_size);
}

#[test]
fn light_theme_variant_is_available() {
    let theme = Theme::sola_light();

    assert_eq!(theme.name, "sola-light");
    assert_eq!(
        parse_hex_color(&theme.palette.app_background),
        Some(0xf8fafc)
    );
}

#[test]
fn hex_colors_parse_with_or_without_hash() {
    assert_eq!(parse_hex_color("#7c3aed"), Some(0x7c3aed));
    assert_eq!(parse_hex_color("c678dd"), Some(0xc678dd));
    assert_eq!(parse_hex_color("  #FFFFFF  "), Some(0xffffff));
    assert_eq!(parse_hex_color("##000000"), Some(0));
}

#[test]
fn hex_colors_reject_wrong_lengths_and_digits() {
    assert_eq!(parse_hex_color("#fff"), None);
    assert_eq!(parse_hex_color("#1234567"), None);
    assert_eq!(parse_hex_color("#12345g"), None);
    assert_eq!(parse_hex_color(""), None);
    assert_eq!(parse_hex_color("#\u{e9}1234"), None);
}

#[test]
fn hex_colors_accept_a_leading_plus_as_from_str_radix_does() {
    assert_eq!(parse_hex_color("+12345"), Some(0x12345));
    assert_eq!(parse_hex_color("-12345"), None);
}

#[test]
fn every_built_in_color_parses() {
    for theme in [Theme::sola_dark(), Theme::sola_light()] {
        let p = &theme.palette;
        for c in [
            &p.app_background, &p.panel_background, &p.panel_border, &p.text_primary,
            &p.text_muted, &p.accent, &p.focused_background, &p.focused_border,
            &p.code_background, &p.selection, &p.cursor,
        ] {
            assert!(parse_hex_color(c).is_some());
        }
        let s = &theme.syntax;
        for c in [&s.keyword, &s.string, &s.comment, &s.function, &s.number, &s.constant, &s.types] {
            assert!(parse_hex_color(c).is_some());
        }
    }
}

#[test]
fn dark_theme_colors_match_their_values() {
    let theme = Theme::sola_dark();
    assert_eq!(parse_hex_color(&theme.syntax.keyword), Some(0xc678dd));
    assert_eq!(parse_hex_color(&theme.palette.accent), Some(0x8b5cf6));
    assert_eq!(theme.typography.code_size, 14);
}

#[test]
fn six_hex_digits_read_back_as_their_value() {
    assert_eq!(parse_hex_color("#7c3aed"), Some(0x7c3aed));
    for v in [0u32, 1, 0xabcdef, 0x123456, 0xffffff] {
        assert_eq!(parse_hex_color(&format!("#{:06x}", v)), Some(v));
    }
    assert_eq!(parse_hex_color("#fff"), None);
    assert_eq!(parse_hex_color("ffffff"), Some(0xffffff));
}
