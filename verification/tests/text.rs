use descargador::text::{
    clean_label, comes_before, contains_any, find, first_line_of, is_white_space, replace,
    split_whitespace, strip_prefix, to_ascii_lowercase, trim, trim_matches,
};

#[test]
fn white_space_is_what_the_standard_says() {
    for code in 0..=0x10ffffu32 {
        if let Some(c) = char::from_u32(code) {
            assert_eq!(is_white_space(c), c.is_whitespace(), "{code:x}");
        }
    }
}

#[test]
fn a_label_is_cleaned_once_and_for_all() {
    for value in ["", " ", "a", "  a\tb\u{a0}\u{3000}c \n", "ñ  é"] {
        let label = clean_label(value);
        assert_eq!(label, value.split_whitespace().collect::<Vec<_>>().join(" "));
        assert_eq!(clean_label(&label), label);
        assert_eq!(split_whitespace(&label), split_whitespace(value));
    }
}

#[test]
fn trimming_twice_is_trimming_once() {
    for value in ["", "  ", " a b ", "\u{2003}x\u{85}", "é"] {
        assert_eq!(trim(value), value.trim());
        assert_eq!(trim(&trim(value)), trim(value));
    }
    assert_eq!(trim_matches("\"'a'\"b'", &['"', '\'']), "a'\"b");
    assert_eq!(trim_matches("''", &['\'']), "");
}

#[test]
fn texts_are_searched_by_character() {
    assert_eq!(find("ñandú", "n"), Some(2));
    assert_eq!(find("abc", ""), Some(0));
    assert_eq!(find("abc", "bcd"), None);
    assert!(contains_any("a player", &["x", "play"]));
    assert!(!contains_any("a player", &[]));
    assert!(contains_any("", &[""]));
    assert_eq!(strip_prefix("abc", "ab").as_deref(), Some("c"));
    assert_eq!(strip_prefix("abc", "b"), None);
}

#[test]
fn texts_are_changed_by_character() {
    assert_eq!(to_ascii_lowercase("AZaz[ÑÉ"), "azaz[ÑÉ");
    assert_eq!(replace("aaa", "aa", "b"), "ba");
    assert_eq!(replace("x&amp;y&amp;", "&amp;", "&"), "x&y&");
    assert_eq!(first_line_of("a\r\nb").as_deref(), Some("a"));
    assert_eq!(first_line_of("a\r").as_deref(), Some("a\r"));
    assert_eq!(first_line_of(""), None);
}

#[test]
fn texts_have_the_order_of_their_bytes() {
    let texts = ["", "a", "aa", "ab", "b", "é", "\u{e000}", "\u{ffff}", "\u{10000}"];
    for left in texts {
        for right in texts {
            assert_eq!(comes_before(left, right), left < right, "{left} {right}");
        }
    }
}
