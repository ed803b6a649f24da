use ba_search::search::{remove_double_spaces, Line};

fn outline(text: &str, input: &str) -> String {
    Line::outline(text, input).expect("outlining ASCII text does not fail")
}

#[test]
fn line_outline() {
    let cases = [
        ("", "", "****"),
        ("", " ", ""),
        ("apple", "apple", "**apple**"),
        (" apple", "apple", " **apple**"),
        ("apple ", "apple", "**apple** "),
        ("apple banana", " ", "apple** **banana"),
        ("apple banana", "banana", "apple **banana**"),
        (
            "apple cherry banana cherry",
            "cherry",
            "apple **cherry** banana **cherry**",
        ),
    ];
    for (text, input, expected) in cases {
        assert_eq!(outline(text, input), expected.to_owned());
    }
}

#[test]
fn outline_ignores_case() {
    assert_eq!(outline("Apple APPLE apple", "aPPle"), "**Apple** **APPLE** **apple**");
}

#[test]
fn outline_keeps_text_without_match() {
    assert_eq!(outline("nameless priests", "sensei"), "nameless priests");
}

#[test]
fn outline_empty_input_marks_every_boundary() {
    assert_eq!(outline("ab", ""), "****a****b****");
}

#[test]
fn outline_non_ascii_text() {
    assert_eq!(outline("Éa", "a"), "É**a**");
    assert_eq!(outline("café Café", "CAFÉ"), "**café** **Café**");
}

#[test]
fn outline_adds_four_bytes_per_match() {
    let text = "cherry cherry cherry";
    let out = outline(text, "cherry");
    assert_eq!(out.len(), text.len() + 4 * 3);
}

#[test]
fn outline_off_boundary_is_none() {
    // 'İ' (2 bytes) lowercases to "i̇" (3 bytes): the match of "x" is at
    // byte 3 of the lowercase text, and byte 4 is past the end of "İx".
    assert_eq!(Line::outline("İx", "x"), None);
    // The Kelvin sign (3 bytes) lowercases to 'k' (1 byte): the match of
    // "a" is found at byte 1 of the lowercase text, inside the Kelvin sign.
    assert_eq!(Line::outline("\u{212A}a", "a"), None);
}

#[test]
fn remove_double_spaces_squeezes_runs() {
    assert_eq!(remove_double_spaces("a  b\t\tc \r d"), "a b c d");
    assert_eq!(remove_double_spaces("  lead"), " lead");
    assert_eq!(remove_double_spaces("trail \t"), "trail ");
    assert_eq!(remove_double_spaces(""), "");
    assert_eq!(remove_double_spaces("no-blanks"), "no-blanks");
}

#[test]
fn remove_double_spaces_is_idempotent() {
    let once = remove_double_spaces(" x \t y  z ");
    assert_eq!(remove_double_spaces(&once), once);
    assert!(!once.contains("  "));
    assert!(!once.contains('\t'));
}

#[test]
fn outline_of_ascii_only_adds_marker_pairs() {
    let cases = [
        ("Apple BANANA banana", "Banana", "Apple **BANANA** **banana**"),
        ("ab", "", "****a****b****"),
        ("Nameless Gods", "GODS", "Nameless **Gods**"),
        ("no match here", "zz", "no match here"),
    ];
    for (text, input, expected) in cases {
        let out = outline(text, input);
        assert_eq!(out, expected);
        assert_eq!(out.replace("**", ""), text);
    }
}
