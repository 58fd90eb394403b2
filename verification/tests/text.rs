use iioon::order::{comes_before, find_position, find_slot};
use iioon::text::{
    from_chars, ident_char, identifier, same_ignoring_case, same_text, slice_to_string, space,
    to_chars, to_lower, to_lower_char, trim,
};

fn trim_string(s: &str) -> String {
    from_chars(&trim(&to_chars(s)))
}

#[test]
fn white_space_is_what_std_calls_white_space() {
    for code in 0..=0x10FFFFu32 {
        if let Some(c) = char::from_u32(code) {
            assert_eq!(space(c), c.is_whitespace(), "U+{:04X}", code);
        }
    }
}

#[test]
fn lower_case_is_ascii_lower_case() {
    for code in 0..=0x10FFFFu32 {
        if let Some(c) = char::from_u32(code) {
            assert_eq!(to_lower_char(c), c.to_ascii_lowercase(), "U+{:04X}", code);
        }
    }
    assert_eq!(to_lower_char('A'), 'a');
    assert_eq!(to_lower_char('Z'), 'z');
    assert_eq!(to_lower_char('É'), 'É');
}

#[test]
fn identifier_characters_are_ascii_letters_digits_and_underscore() {
    for code in 0..=0x10FFFFu32 {
        if let Some(c) = char::from_u32(code) {
            assert_eq!(ident_char(c), c.is_ascii_alphanumeric() || c == '_', "U+{:04X}", code);
        }
    }
}

#[test]
fn identifiers_are_recognised() {
    assert!(identifier("en"));
    assert!(identifier("_"));
    assert!(identifier("_1"));
    assert!(identifier("pt_BR"));
    assert!(identifier("a1_B2"));
    assert!(!identifier(""));
    assert!(!identifier("1a"));
    assert!(!identifier("9"));
    assert!(!identifier("pt-BR"));
    assert!(!identifier("a b"));
    assert!(!identifier("grüße"));
    assert!(!identifier("a."));
}

#[test]
fn chars_round_trip() {
    for s in ["", "a", "Hello {name}!", "grüße", "日本語", "a\u{10FFFF}b"] {
        let v = to_chars(s);
        assert_eq!(v, s.chars().collect::<Vec<char>>());
        assert_eq!(from_chars(&v), s);
    }
}

#[test]
fn slices_become_strings() {
    let v = to_chars("Hello {name}!");
    assert_eq!(slice_to_string(&v, 7, 11), "name");
    assert_eq!(slice_to_string(&v, 0, 0), "");
    assert_eq!(slice_to_string(&v, 0, 13), "Hello {name}!");
    assert_eq!(slice_to_string(&v, 12, 13), "!");
}

#[test]
fn lowering_keeps_everything_but_ascii_capitals() {
    assert_eq!(from_chars(&to_lower(&to_chars("Pt-BR"))), "pt-br");
    assert_eq!(from_chars(&to_lower(&to_chars("ÄÖü ABC xyz 123"))), "ÄÖü abc xyz 123");
    assert_eq!(from_chars(&to_lower(&to_chars(""))), "");
}

#[test]
fn trimming_is_what_std_does() {
    let samples = [
        "",
        " ",
        "   ",
        "en",
        " en",
        "en ",
        "  en  ",
        "\t\n en \r\n",
        "e n",
        " e n ",
        "\u{00A0}en\u{3000}",
        "\u{2003}\u{2028}x\u{2029}\u{205F}",
        "\u{200B}en\u{200B}",
        "\u{FEFF}en",
        "\u{1680}\u{2000}\u{200A}\u{202F}",
        "\u{0085}a\u{000B}\u{000C}",
    ];
    for s in samples {
        assert_eq!(trim_string(s), s.trim(), "{:?}", s);
    }
    assert_eq!(trim_string("  en  "), "en");
    assert_eq!(trim_string(" \t "), "");
}

#[test]
fn texts_are_compared_character_by_character() {
    assert!(same_text("", ""));
    assert!(same_text("en", "en"));
    assert!(!same_text("en", "En"));
    assert!(!same_text("en", "en "));
    assert!(!same_text("en", "e"));
    assert!(!same_text("grüße", "grusse"));
}

#[test]
fn case_is_ignored_for_ascii_letters_only() {
    let samples = ["", "en", "En", "EN", "eN", "de", "no", "No", "en ", "é", "É", "straSSe", "strasse"];
    for a in samples {
        for b in samples {
            assert_eq!(same_ignoring_case(a, b), a.eq_ignore_ascii_case(b), "{:?} {:?}", a, b);
        }
    }
    assert!(same_ignoring_case("en", "EN"));
    assert!(!same_ignoring_case("é", "É"));
}

#[test]
fn order_is_that_of_strings() {
    let samples =
        ["", "a", "A", "aa", "ab", "b", "de", "en", "en-us", "en_us", "z", "é", "日本", "a\u{10FFFF}", "_"];
    for a in samples {
        for b in samples {
            assert_eq!(comes_before(a, b), a < b, "{:?} {:?}", a, b);
        }
    }
    assert!(comes_before("de", "en"));
    assert!(!comes_before("en", "de"));
    assert!(!comes_before("en", "en"));
    assert!(comes_before("en", "en-us"));
}

#[test]
fn slots_and_positions_are_found() {
    let keys = vec!["b".to_string(), "d".to_string(), "f".to_string()];
    assert_eq!(find_slot(&keys, "a"), 0);
    assert_eq!(find_slot(&keys, "b"), 0);
    assert_eq!(find_slot(&keys, "c"), 1);
    assert_eq!(find_slot(&keys, "d"), 1);
    assert_eq!(find_slot(&keys, "e"), 2);
    assert_eq!(find_slot(&keys, "g"), 3);
    assert_eq!(find_slot(&Vec::new(), "a"), 0);
    assert_eq!(find_position(&keys, "b"), Some(0));
    assert_eq!(find_position(&keys, "f"), Some(2));
    assert_eq!(find_position(&keys, "c"), None);
    let repeated = vec!["x".to_string(), "y".to_string(), "x".to_string()];
    assert_eq!(find_position(&repeated, "x"), Some(0));
}
