use mnemokanji::json::{
    component_actors, furigana_entries, jlpt_entries, jm_words, json_get, kanji_level_entries,
    kanji_row, keyword_overrides, known_levels, mnemonics, reading_actors, string_triples, Json,
};

fn st(s: &str) -> Json {
    Json::Str(s.to_string())
}

fn obj(m: &[(&str, Json)]) -> Json {
    Json::Object(m.iter().map(|(k, v)| (k.to_string(), clone(v))).collect())
}

fn clone(j: &Json) -> Json {
    match j {
        Json::Null => Json::Null,
        Json::Bool(b) => Json::Bool(*b),
        Json::Int(n) => Json::Int(*n),
        Json::Number(s) => Json::Number(s.clone()),
        Json::Str(s) => Json::Str(s.clone()),
        Json::Array(a) => Json::Array(a.iter().map(clone).collect()),
        Json::Object(m) => Json::Object(m.iter().map(|(k, v)| (k.clone(), clone(v))).collect()),
    }
}

#[test]
fn members_are_found_by_name() {
    let j = obj(&[("a", Json::Int(1)), ("b", st("x"))]);
    assert!(matches!(json_get(Some(&j), "b"), Some(Json::Str(s)) if s == "x"));
    assert!(json_get(Some(&j), "c").is_none());
    assert!(json_get(Some(&Json::Null), "a").is_none());
}

#[test]
fn furigana_entries_default_missing_texts() {
    let j = Json::Array(vec![
        obj(&[
            ("text", st("日本")),
            ("reading", st("にほん")),
            ("furigana", Json::Array(vec![obj(&[("ruby", st("日")), ("rt", st("に"))]), obj(&[("ruby", st("本"))])])),
        ]),
        obj(&[("reading", Json::Int(3))]),
    ]);
    let f = furigana_entries(&j);
    assert_eq!(f.len(), 2);
    assert_eq!(f[0].text, "日本");
    assert_eq!(f[0].segments, vec![("日".to_string(), Some("に".to_string())), ("本".to_string(), None)]);
    assert_eq!((f[1].text.as_str(), f[1].reading.as_str(), f[1].segments.len()), ("", "", 0));
}

#[test]
fn jlpt_entries_need_surface_and_label() {
    let e = |s: Json, l: Option<&str>| {
        let third = match l {
            Some(l) => obj(&[("frequency", obj(&[("displayValue", st(l))]))]),
            None => Json::Null,
        };
        Json::Array(vec![s, st("freq"), third])
    };
    let j = Json::Array(vec![e(st("日本"), Some("N5")), e(Json::Int(1), Some("N4")), e(st("本"), None)]);
    assert_eq!(jlpt_entries(&j), vec![("日本".to_string(), "N5".to_string())]);
}

#[test]
fn dictionary_words_read_forms_and_first_gloss() {
    let word = obj(&[
        ("kanji", Json::Array(vec![obj(&[("text", st("日本")), ("common", Json::Bool(true))]), obj(&[("text", st("日夲"))])])),
        (
            "kana",
            Json::Array(vec![obj(&[
                ("text", st("にほん")),
                ("common", Json::Bool(true)),
                ("appliesToKanji", Json::Array(vec![st("*"), Json::Int(2)])),
            ])]),
        ),
        (
            "sense",
            Json::Array(vec![
                obj(&[("gloss", Json::Array(vec![]))]),
                obj(&[("gloss", Json::Array(vec![obj(&[("text", st("Japan"))])]))]),
            ]),
        ),
    ]);
    let j = obj(&[("words", Json::Array(vec![word, obj(&[])]))]);
    let w = jm_words(&j);
    assert_eq!(w.len(), 2);
    assert_eq!(w[0].kanji.len(), 2);
    assert_eq!((w[0].kanji[0].text.as_deref(), w[0].kanji[0].common), (Some("日本"), true));
    assert!(!w[0].kanji[1].common);
    assert_eq!(w[0].kana[0].applies_to, Some(vec!["*".to_string()]));
    assert_eq!(w[0].gloss, "Japan");
    assert_eq!((w[1].kanji.len(), w[1].kana.len(), w[1].gloss.as_str()), (0, 0, ""));
}

#[test]
fn kanji_records_become_rows() {
    let j = obj(&[
        (
            "日",
            obj(&[
                ("jlpt_new", Json::Int(5)),
                ("strokes", Json::Int(4)),
                ("meanings", Json::Array(vec![st("Day"), st("sun")])),
                ("readings_on", Json::Array(vec![st("にち")])),
            ]),
        ),
        ("本", obj(&[("jlpt_new", Json::Null)])),
    ]);
    let entries = kanji_level_entries(&j);
    assert_eq!(entries, vec![("日".to_string(), Some(5)), ("本".to_string(), None)]);
    assert_eq!(known_levels(&entries), vec![("日".to_string(), 5)]);
    let krad = vec![("日".to_string(), vec!["口".to_string()])];
    let r = kanji_row(&j, &"日".to_string(), 1, &krad);
    assert_eq!((r.strokes, r.freq), (Some(4), None));
    assert_eq!(r.keyword, "day");
    assert_eq!(r.meanings, vec!["Day", "sun"]);
    assert_eq!(r.on, vec!["にち"]);
    assert!(r.kun.is_empty());
    assert_eq!(r.components, vec!["口"]);
    let missing = kanji_row(&j, &"人".to_string(), 1, &krad);
    assert_eq!((missing.keyword.as_str(), missing.meanings.len()), ("", 0));
}

#[test]
fn authored_entries_are_read_with_defaults() {
    let ra = Json::Array(vec![
        obj(&[("reading", st("か")), ("actor_name", st("Kate"))]),
        obj(&[("reading", st("き")), ("actor_name", st("Kim")), ("vowel_length", st("short")), ("note", st("n"))]),
        obj(&[("reading", st("く"))]),
    ]);
    assert_eq!(
        reading_actors(&ra),
        vec![
            ("か".to_string(), "long".to_string(), "Kate".to_string(), None),
            ("き".to_string(), "short".to_string(), "Kim".to_string(), Some("n".to_string())),
        ]
    );
    let kw = Json::Array(vec![obj(&[("glyph", st("日")), ("keyword", st("day"))]), obj(&[("glyph", st("本"))])]);
    assert_eq!(keyword_overrides(&kw), vec![("日".to_string(), "day".to_string())]);
    let ca = Json::Array(vec![obj(&[("component", st("口")), ("actor_name", st("Mouth"))])]);
    assert_eq!(component_actors(&ca), vec![("口".to_string(), "Mouth".to_string(), String::new())]);
    let mn = Json::Array(vec![
        obj(&[("glyph", st("日"))]),
        obj(&[("glyph", st("本")), ("story", st("s")), ("verified", Json::Bool(true)), ("imageability", Json::Int(4))]),
    ]);
    let m = mnemonics(&mn);
    assert_eq!(m.len(), 1);
    assert_eq!((m[0].position, m[0].glyph.as_str(), m[0].verified, m[0].imageability), (1, "本", true, Some(4)));
    let tr = Json::Array(vec![obj(&[("glyph", st("日")), ("reading", st("にち")), ("kind", st("on"))]), obj(&[("glyph", st("本"))])]);
    assert_eq!(string_triples(&tr, "glyph", "reading", "kind"), vec![("日".to_string(), "にち".to_string(), "on".to_string())]);
}
