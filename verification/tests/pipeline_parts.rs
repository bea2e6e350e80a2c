use mnemokanji::phonetic::{build as build_phonetic, parse_phonetic_line, phonetic_of};
use mnemokanji::pipeline::{
    build_meta, components_of, decimal_string, distinct_components, dominant_choice, kanji_id_of,
    level_authored, level_glyphs, levels, normalize_keyword, parse_krad_line, parse_kradfile, plan_dominant, topological_order, KanjiRow,
};
use mnemokanji::stroke::svg_path;

fn row(glyph: &str, freq: Option<i64>, strokes: Option<i64>, comps: &[&str]) -> KanjiRow {
    KanjiRow {
        glyph: glyph.into(),
        level_id: 1,
        strokes,
        freq,
        keyword: String::new(),
        meanings: vec![],
        on: vec![],
        kun: vec![],
        components: comps.iter().map(|c| c.to_string()).collect(),
    }
}

#[test]
fn keyword_drops_parentheticals_and_takes_first_segment() {
    assert_eq!(normalize_keyword("One"), "one");
    assert_eq!(normalize_keyword("Day, sun, Japan"), "day");
    assert_eq!(normalize_keyword("  Large (big) "), "large");
    assert_eq!(normalize_keyword("tree [wood, timber], forest"), "tree");
    assert_eq!(normalize_keyword("(a, b) Mouth"), "mouth");
    assert_eq!(normalize_keyword("x) y, z"), "x y");
    assert_eq!(normalize_keyword(""), "");
}

#[test]
fn krad_lines_parse_kanji_and_components() {
    let (k, comps) = parse_krad_line("\u{4f11} : \u{4ebb} \u{6728}").unwrap();
    assert_eq!(k, "\u{4f11}");
    assert_eq!(comps, vec!["\u{4ebb}", "\u{6728}"]);
    assert!(parse_krad_line("# comment : x").is_none());
    assert!(parse_krad_line("   ").is_none());
    assert!(parse_krad_line("\u{4e00}:\u{4e00}").is_none());
    let (k, comps) = parse_krad_line(" \u{4e00} :   ").unwrap();
    assert_eq!(k, "\u{4e00}");
    assert!(comps.is_empty());
}

#[test]
fn later_krad_line_replaces_earlier() {
    let lines: Vec<String> = vec![
        "# header".into(),
        "\u{65e5} : \u{65e5}".into(),
        "\u{6708} : \u{6708}".into(),
        "\u{65e5} : \u{53e3} \u{4e00}".into(),
    ];
    let krad = parse_kradfile(&lines);
    assert_eq!(krad.len(), 3);
    assert_eq!(components_of(&krad, &"\u{65e5}".to_string()), vec!["\u{53e3}", "\u{4e00}"]);
    assert_eq!(components_of(&krad, &"\u{6708}".to_string()), vec!["\u{6708}"]);
    assert!(components_of(&krad, &"\u{706b}".to_string()).is_empty());
}

#[test]
fn authored_paths_use_lowercased_label() {
    let a = level_authored("N5");
    assert_eq!(a.keywords, "data/authored/n5-keywords.json");
    assert_eq!(a.components, "data/authored/n5-component-actors.json");
    assert_eq!(a.mnemonics, "data/authored/n5-mnemonics.json");
    assert_eq!(a.dominant, "data/authored/n5-dominant-readings.json");
    assert_eq!(a.vglosses, "data/authored/n5-vocab-glosses.json");
}

#[test]
fn meta_records_levels_and_count() {
    let rows = vec![row("\u{4e00}", None, None, &[]), row("\u{4e8c}", None, None, &[])];
    let meta = build_meta(&rows);
    assert_eq!(meta.len(), 6);
    assert_eq!(meta[0], ("schema_version", "1".to_string()));
    assert_eq!(meta[2], ("levels", "N5".to_string()));
    assert_eq!(meta[3], ("kanji_count", "2".to_string()));
    assert_eq!(levels(), vec![(5, "N5", 1)]);
}

#[test]
fn decimal_notation() {
    assert_eq!(decimal_string(0), "0");
    assert_eq!(decimal_string(7), "7");
    assert_eq!(decimal_string(10), "10");
    assert_eq!(decimal_string(1234), "1234");
}

#[test]
fn dominant_override_then_derived_then_fallback() {
    let mut a = row("\u{4e00}", None, None, &[]);
    a.on = vec!["\u{30a4}\u{30c1}".into()];
    let mut b = row("\u{4e8c}", None, None, &[]);
    b.on = vec!["\u{30cb}".into()];
    let mut c = row("\u{4e09}", None, None, &[]);
    c.kun = vec!["\u{307f}".into()];
    let d = row("\u{56db}", None, None, &[]);
    let derived = vec![("\u{4e00}".to_string(), ("\u{3072}\u{3068}".to_string(), "kun".to_string()))];
    let overrides = vec![
        ("\u{4e8c}".to_string(), "x".to_string(), "on".to_string()),
        ("\u{4e8c}".to_string(), "\u{3075}\u{305f}".to_string(), "kun".to_string()),
    ];
    assert_eq!(
        dominant_choice(&derived, &overrides, &a),
        (Some(("\u{3072}\u{3068}".to_string(), "kun".to_string())), true)
    );
    assert_eq!(
        dominant_choice(&derived, &overrides, &b),
        (Some(("\u{3075}\u{305f}".to_string(), "kun".to_string())), true)
    );
    assert_eq!(
        dominant_choice(&derived, &overrides, &c),
        (Some(("\u{307f}".to_string(), "kun".to_string())), false)
    );
    assert_eq!(dominant_choice(&derived, &overrides, &d), (None, false));
    let (marks, nd, nf) = plan_dominant(&derived, &overrides, &vec![a, b, c, d]);
    assert_eq!(marks.len(), 3);
    assert_eq!((nd, nf), (2, 1));
    assert_eq!(marks[2], ("\u{4e09}".to_string(), "\u{307f}".to_string(), "kun".to_string()));
}

#[test]
fn learning_order_puts_components_first_then_frequency() {
    // 休 (person + tree) needs 人 and 木 when both are in the level; 木 is less frequent.
    let rows = vec![
        row("\u{4f11}", Some(1), Some(6), &["\u{4ebb}", "\u{6728}", "\u{4eba}"]),
        row("\u{6728}", Some(50), Some(4), &["\u{6728}"]),
        row("\u{4eba}", Some(10), Some(2), &[]),
        row("\u{65e5}", Some(5), Some(4), &[]),
    ];
    let scope: Vec<String> = rows.iter().map(|r| r.glyph.clone()).collect();
    let order = topological_order(&rows, &scope);
    assert_eq!(order, vec!["\u{65e5}", "\u{4eba}", "\u{6728}", "\u{4f11}"]);
    let only: Vec<String> = vec!["\u{4f11}".into(), "\u{65e5}".into()];
    assert_eq!(topological_order(&rows, &only), vec!["\u{4f11}", "\u{65e5}"]);
}

#[test]
fn stroke_drawing_path_is_five_hex_digits() {
    assert_eq!(svg_path("\u{65e5}").unwrap(), "data/sources/kanjivg/kanji/065e5.svg");
    assert_eq!(svg_path("A").unwrap(), "data/sources/kanjivg/kanji/00041.svg");
    assert_eq!(svg_path("\u{20b9f}").unwrap(), "data/sources/kanjivg/kanji/20b9f.svg");
    assert!(svg_path("").is_none());
}

#[test]
fn phonetic_lines_give_fourth_column() {
    assert_eq!(
        parse_phonetic_line("\u{6642}\tx\ty\t\u{5bfa}\tz"),
        Some(("\u{6642}".to_string(), "\u{5bfa}".to_string()))
    );
    assert_eq!(parse_phonetic_line("\u{6642}\tx\ty\t"), None);
    assert_eq!(parse_phonetic_line("\u{6642}\tx"), None);
    let lines: Vec<String> = vec![
        "\u{6642}\ta\tb\t\u{5bfa}".into(),
        "\u{6674}\ta\tb\t\u{9752}".into(),
        "\u{6642}\ta\tb\t\u{65e5}".into(),
    ];
    let selected: Vec<String> = vec!["\u{6642}".into()];
    let entries = build_phonetic(&lines, &selected);
    assert_eq!(entries.len(), 2);
    assert_eq!(phonetic_of(&entries, &"\u{6642}".to_string()), Some("\u{65e5}".to_string()));
    assert_eq!(phonetic_of(&entries, &"\u{6674}".to_string()), None);
}

#[test]
fn level_glyphs_are_sorted_and_filtered() {
    let e = |g: &str, l: Option<i64>| (g.to_string(), l);
    let entries = vec![
        e("\u{672c}", Some(5)),
        e("\u{4e00}", Some(5)),
        e("\u{4eba}", Some(4)),
        e("\u{65e5}", Some(5)),
        e("\u{4e00}", Some(5)),
        e("\u{5b66}", None),
    ];
    assert_eq!(level_glyphs(&entries, 5), vec!["\u{4e00}", "\u{65e5}", "\u{672c}"]);
    assert_eq!(level_glyphs(&entries, 4), vec!["\u{4eba}"]);
    assert!(level_glyphs(&entries, 3).is_empty());
}

#[test]
fn components_are_collected_once_in_order() {
    let row = |comps: &[&str]| KanjiRow {
        glyph: "g".to_string(),
        level_id: 1,
        strokes: None,
        freq: None,
        keyword: String::new(),
        meanings: vec![],
        on: vec![],
        kun: vec![],
        components: comps.iter().map(|c| c.to_string()).collect(),
    };
    let rows = vec![row(&["\u{65e5}", "\u{4e00}"]), row(&["\u{53e3}", "\u{65e5}"]), row(&[])];
    assert_eq!(distinct_components(&rows), vec!["\u{4e00}", "\u{53e3}", "\u{65e5}"]);
}

#[test]
fn kanji_ids_are_first_codepoints() {
    assert_eq!(kanji_id_of("\u{65e5}"), Some(0x65e5));
    assert_eq!(kanji_id_of("\u{65e5}\u{672c}"), Some(0x65e5));
    assert_eq!(kanji_id_of(""), None);
}
