use mangobar::text::{
    chars_of, contains, decimal_string, is_whitespace, join_from, same_text, split_fields,
    split_lines, trim,
};

#[test]
fn fields_split_on_any_whitespace() {
    assert_eq!(split_fields("  a\tbc \u{2003} d\n"), vec!["a", "bc", "d"]);
    assert!(split_fields("").is_empty());
    assert!(split_fields(" \n\t").is_empty());
    assert_eq!(split_fields("x"), vec!["x"]);
}

#[test]
fn lines_like_str_lines() {
    for s in ["", "a", "a\n", "a\n\nb", "a\r\nb\r", "\n", "\r\n\r\n", "x\ry\n"] {
        let expected: Vec<String> = s.lines().map(String::from).collect();
        assert_eq!(split_lines(s), expected, "input {:?}", s);
    }
}

#[test]
fn trim_like_str_trim() {
    for s in ["", "   ", " a b ", "\u{a0}x\u{3000}", "abc"] {
        assert_eq!(trim(s), s.trim());
    }
}

#[test]
fn whitespace_like_char_is_whitespace() {
    for c in ['\t', '\n', '\u{b}', '\u{c}', '\r', ' ', '\u{85}', '\u{a0}', '\u{1680}', '\u{2000}', '\u{200a}', '\u{2028}', '\u{2029}', '\u{202f}', '\u{205f}', '\u{3000}', 'a', '\u{200b}', '\u{1f}', '\u{feff}'] {
        assert_eq!(is_whitespace(c), c.is_whitespace(), "char {:?}", c);
    }
}

#[test]
fn contains_substrings() {
    assert!(contains("abc", ""));
    assert!(contains("abc", "bc"));
    assert!(!contains("abc", "cb"));
    assert!(!contains("ab", "abc"));
    assert!(contains("Avg: 0.40 [MUTED]", "[MUTED]"));
}

#[test]
fn join_tail() {
    let v = vec![String::from("kb_layout"), String::from("English"), String::from("(US)")];
    assert_eq!(join_from(&v, 1, " "), "English (US)");
    assert_eq!(join_from(&v, 3, " "), "");
}

#[test]
fn decimal_like_to_string() {
    for n in [0u32, 7, 10, 42, 100, 4294967295] {
        assert_eq!(decimal_string(n), n.to_string());
    }
}

#[test]
fn chars_and_equality() {
    assert_eq!(chars_of("añ"), vec!['a', 'ñ']);
    assert!(same_text("tag", "tag"));
    assert!(!same_text("tag", "tags"));
}
