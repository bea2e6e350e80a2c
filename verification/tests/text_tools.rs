use mnemokanji::text::{first_token, lex_less, split_char, trim, words_of};

#[test]
fn first_token_skips_leading_white_space() {
    assert_eq!(first_token("  abc def"), Some("abc".to_string()));
    assert_eq!(first_token("x"), Some("x".to_string()));
    assert_eq!(first_token(" \t "), None);
    assert_eq!(first_token(""), None);
}

#[test]
fn words_split_on_any_white_space() {
    assert_eq!(words_of("  a bb\t c  "), vec!["a", "bb", "c"]);
    assert!(words_of("   ").is_empty());
    assert_eq!(words_of("\u{4eba}\u{3000}\u{6728}"), vec!["\u{4eba}", "\u{6728}"]);
}

#[test]
fn split_keeps_empty_fields() {
    assert_eq!(split_char("a\tb\t\tc", '\t'), vec!["a", "b", "", "c"]);
    assert_eq!(split_char("", '\t'), vec![""]);
    assert_eq!(split_char("a\t", '\t'), vec!["a", ""]);
}

#[test]
fn lexicographic_order_by_scalar_value() {
    let v = |s: &str| s.chars().collect::<Vec<char>>();
    assert!(lex_less(&v("ab"), &v("b")));
    assert!(lex_less(&v("a"), &v("ab")));
    assert!(!lex_less(&v("ab"), &v("ab")));
    assert!(!lex_less(&v("b"), &v("ab")));
    assert!(lex_less(&v(""), &v("a")));
    assert!(lex_less(&v("\u{4e00}"), &v("\u{4e8c}")));
}

#[test]
fn trim_removes_outer_white_space() {
    assert_eq!(trim("  a b \n"), "a b");
    assert_eq!(trim(""), "");
}

#[test]
fn trim_agrees_with_std_on_every_character() {
    for u in (0u32..=0x3100).chain((0x3101u32..=0x10FFFF).step_by(61)) {
        if let Some(c) = char::from_u32(u) {
            let s = format!("{c}x{c}");
            assert_eq!(trim(&s), s.trim(), "U+{u:04X}");
        }
    }
}
