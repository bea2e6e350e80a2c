use mnemokanji::kana::{context_forms, geminate, hira, is_kanji, level_num, reading_stem, rendaku, voiced};

fn v(s: &str) -> Vec<char> {
    s.chars().collect()
}

fn s(v: &[char]) -> String {
    v.iter().collect()
}

#[test]
fn katakana_folds_to_hiragana() {
    assert_eq!(s(&hira(&v("\u{30ab}\u{30bf}\u{30ab}\u{30ca}"))), "\u{304b}\u{305f}\u{304b}\u{306a}");
    assert_eq!(s(&hira(&v("\u{304b}a\u{30fc}"))), "\u{304b}a\u{30fc}");
    assert!(hira(&v("")).is_empty());
}

#[test]
fn reading_stems_drop_okurigana_and_markers() {
    assert_eq!(reading_stem("\u{3044}.\u{304d}\u{308b}"), "\u{3044}");
    assert_eq!(reading_stem("\u{304a}\u{304a}-"), "\u{304a}\u{304a}");
    assert_eq!(reading_stem("-\u{308a}"), "\u{308a}");
    assert_eq!(reading_stem(" \u{306b}\u{3061} "), "\u{306b}\u{3061}");
}

#[test]
fn compound_forms_of_a_reading() {
    // がく: itself and がっ (no rendaku for が).
    let f: Vec<String> = context_forms(&v("\u{304c}\u{304f}")).iter().map(|x| s(x)).collect();
    assert_eq!(f, vec!["\u{304c}\u{304f}", "\u{304c}\u{3063}"]);
    // かく: かく, かっ, がっ, がく.
    let f: Vec<String> = context_forms(&v("\u{304b}\u{304f}")).iter().map(|x| s(x)).collect();
    assert_eq!(f, vec!["\u{304b}\u{304f}", "\u{304b}\u{3063}", "\u{304c}\u{3063}", "\u{304c}\u{304f}"]);
    // ひと: ひと, びと.
    let f: Vec<String> = context_forms(&v("\u{3072}\u{3068}")).iter().map(|x| s(x)).collect();
    assert_eq!(f, vec!["\u{3072}\u{3068}", "\u{3073}\u{3068}"]);
}

#[test]
fn voicing_and_gemination() {
    assert_eq!(voiced('\u{304b}'), Some('\u{304c}'));
    assert_eq!(voiced('\u{307b}'), Some('\u{307c}'));
    assert_eq!(voiced('\u{3042}'), None);
    assert_eq!(rendaku(&v("\u{3055}\u{304f}")).map(|x| s(&x)), Some("\u{3056}\u{304f}".to_string()));
    assert_eq!(rendaku(&v("")), None);
    assert_eq!(geminate(&v("\u{3044}\u{3061}")).map(|x| s(&x)), Some("\u{3044}\u{3063}".to_string()));
    assert_eq!(geminate(&v("\u{3061}")), None);
    assert_eq!(geminate(&v("\u{307b}\u{3093}")), None);
}

#[test]
fn kanji_range_and_level_labels() {
    assert!(is_kanji('\u{65e5}'));
    assert!(is_kanji('\u{3400}'));
    assert!(!is_kanji('\u{3072}'));
    assert!(!is_kanji('A'));
    assert_eq!(level_num("N3"), Some(3));
    assert_eq!(level_num("N6"), None);
}

#[test]
fn folding_twice_is_folding_once() {
    let x = v("\u{30ab}\u{304b}\u{30f3}x");
    assert_eq!(hira(&hira(&x)), hira(&x));
}

#[test]
fn reading_stems_trim_every_unicode_space() {
    assert_eq!(reading_stem("\u{3000}\u{3044}.\u{304d}\u{308b}\u{2003}"), "\u{3044}");
    assert_eq!(reading_stem("\u{a0}\u{306b}\u{3061}\u{85}"), "\u{306b}\u{3061}");
}
