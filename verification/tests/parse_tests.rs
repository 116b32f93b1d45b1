use my_domains::parse::{
    find_value, is_space_char, labelled_field, line_end, parse_expiration, parse_registrar,
    starts_with_at, trim_bounds, value_bounds,
};
use my_domains::text::chars_of;

#[test]
fn expiration_is_read_under_either_label() {
    assert_eq!(
        parse_expiration("Domain Name: EXAMPLE.COM\nRegistry Expiry Date: 2025-01-01T00:00:00Z\n"),
        "2025-01-01T00:00:00Z"
    );
    assert_eq!(parse_expiration("Expires On: 2025-01-01"), "2025-01-01");
}

#[test]
fn registrar_is_read_under_either_label() {
    assert_eq!(parse_registrar("Registrar: Example Corp"), "Example Corp");
    assert_eq!(parse_registrar("Name: Example Corp"), "Example Corp");
}

#[test]
fn text_without_labels_gives_empty_fields() {
    let text = "No match for domain \"EXAMPLE.INVALID\".\n>>> Last update of whois database <<<\n";
    assert_eq!(parse_expiration(text), "");
    assert_eq!(parse_registrar(text), "");
    assert_eq!(parse_expiration(""), "");
    assert_eq!(parse_registrar("\n\n\n"), "");
}

#[test]
fn a_label_inside_a_line_is_no_label() {
    assert_eq!(parse_registrar("Sponsoring Registrar: Example Corp"), "");
    assert_eq!(parse_expiration("x Expires On: 2025-01-01"), "");
    assert_eq!(parse_registrar("Domain Name: EXAMPLE.COM"), "");
}

#[test]
fn the_first_labelled_line_wins() {
    let text = "Registrar: First Corp\nRegistrar: Second Corp\nName: Third Corp\n";
    assert_eq!(parse_registrar(text), "First Corp");
    let text = "Expires On: 2026-02-02\nRegistry Expiry Date: 2025-01-01T00:00:00Z\n";
    assert_eq!(parse_expiration(text), "2026-02-02");
    assert_eq!(parse_registrar("Registrar:\nRegistrar: Late Corp\n"), "");
}

#[test]
fn lines_and_values_are_trimmed() {
    let text = "   Registrar:   Example Corp  \r\n\tRegistry Expiry Date:2025-01-01T00:00:00Z\r\n";
    assert_eq!(parse_registrar(text), "Example Corp");
    assert_eq!(parse_expiration(text), "2025-01-01T00:00:00Z");
    assert_eq!(parse_registrar("\u{a0}Name:\u{3000}Bücher GmbH\u{2003}"), "Bücher GmbH");
}

#[test]
fn any_two_labels_can_be_asked_for() {
    assert_eq!(labelled_field("a: 1\nb: 2\n", "b:", "c:"), "2");
    assert_eq!(labelled_field("a: 1\nb: 2\n", "c:", "a:"), "1");
    assert_eq!(labelled_field("a: 1\nb: 2\n", "c:", "d:"), "");
}

#[test]
fn white_space_is_unicode_white_space() {
    for c in [' ', '\t', '\n', '\r', '\u{b}', '\u{c}', '\u{85}', '\u{a0}', '\u{2009}', '\u{3000}'] {
        assert!(is_space_char(c));
    }
    for c in ['a', ':', '0', '\u{200b}', '\u{8}', '\u{e}'] {
        assert!(!is_space_char(c));
    }
    for n in 0u32..0x3100 {
        if let Some(c) = char::from_u32(n) {
            assert_eq!(is_space_char(c), c.is_whitespace());
        }
    }
}

#[test]
fn bounds_are_found_by_position() {
    let t = chars_of("ab\n  k: v \nlast");
    assert_eq!(line_end(&t, 0), 2);
    assert_eq!(line_end(&t, 2), 2);
    assert_eq!(line_end(&t, 3), 10);
    assert_eq!(line_end(&t, 11), 15);
    assert_eq!(line_end(&t, 15), 15);
    assert_eq!(trim_bounds(&t, 3, 10), (5, 9));
    assert_eq!(trim_bounds(&t, 3, 5), (5, 5));
    assert!(starts_with_at(&t, 5, 9, &chars_of("k:")));
    assert!(!starts_with_at(&t, 5, 6, &chars_of("k:")));
    assert!(!starts_with_at(&t, 5, 9, &chars_of("v")));
    assert_eq!(value_bounds(&t, 3, 10, &chars_of("k:")), Some((8, 9)));
    assert_eq!(value_bounds(&t, 0, 2, &chars_of("k:")), None);
    assert_eq!(find_value(&t, &chars_of("x:"), &chars_of("k:")), (8, 9));
    assert_eq!(find_value(&t, &chars_of("x:"), &chars_of("y:")), (0, 0));
}
