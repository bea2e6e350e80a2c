use mnemokanji::vocab::{
    build, cost_of, is_appropriate, jlpt_level_of, kanji_level_of, FuriganaEntry, JmWord,
    KanaForm, KanjiForm, StoredReadings, VocabSources,
};

const NICHI: &str = "\u{65e5}"; // 日
const HON: &str = "\u{672c}"; // 本
const HITO: &str = "\u{4eba}"; // 人

fn s(x: &str) -> String {
    x.to_string()
}

fn word(surface: &str, reading: &str, gloss: &str) -> JmWord {
    JmWord {
        kanji: vec![KanjiForm { text: Some(s(surface)), common: true }],
        kana: vec![KanaForm { text: Some(s(reading)), common: true, applies_to: None }],
        gloss: s(gloss),
    }
}

fn fur(surface: &str, reading: &str, segs: &[(&str, Option<&str>)]) -> FuriganaEntry {
    FuriganaEntry {
        text: s(surface),
        reading: s(reading),
        segments: segs.iter().map(|(r, t)| (s(r), t.map(s))).collect(),
    }
}

fn stored() -> Vec<StoredReadings> {
    let e = |g: &str, rs: &[(&str, &str)]| StoredReadings {
        glyph: s(g),
        readings: rs.iter().map(|(k, r)| (s(k), s(r))).collect(),
    };
    vec![
        e(NICHI, &[("on", "\u{306b}\u{3061}"), ("on", "\u{3058}\u{3064}"), ("kun", "\u{3072}"), ("kun", "-\u{3073}")]),
        e(HON, &[("on", "\u{307b}\u{3093}"), ("kun", "\u{3082}\u{3068}")]),
        e(HITO, &[("on", "\u{3058}\u{3093}"), ("on", "\u{306b}\u{3093}"), ("kun", "\u{3072}\u{3068}")]),
    ]
}

fn sources() -> VocabSources {
    let nihon = format!("{NICHI}{HON}");
    let nihonjin = format!("{NICHI}{HON}{HITO}");
    let honjitsu = format!("{HON}{NICHI}");
    let hitobito = format!("{HITO}{HITO}");
    let honnin = format!("{HON}{HITO}");
    let long = format!("{NICHI}{HON}{HITO}{NICHI}{HON}");
    let words = vec![
        word(&nihon, "\u{306b}\u{307b}\u{3093}", "Japan"),
        word(HITO, "\u{3072}\u{3068}", "person"),
        word(&nihonjin, "\u{306b}\u{307b}\u{3093}\u{3058}\u{3093}", "Japanese person"),
        word(&honjitsu, "\u{307b}\u{3093}\u{3058}\u{3064}", "today"),
        word(NICHI, "\u{3072}", "sun"),
        word(&hitobito, "\u{3072}\u{3068}\u{3073}\u{3068}", "people"),
        word(NICHI, "\u{306b}\u{3061}", "day"),
        word(&nihon, "\u{306b}\u{307b}\u{3093}", "Japan (again)"),
        word(&honnin, "\u{307b}\u{3093}\u{306b}\u{3093}", "the person himself"),
        word(&long, "x", "too long"),
    ];
    let furigana = vec![
        fur(&nihon, "\u{306b}\u{307b}\u{3093}", &[(NICHI, Some("\u{306b}")), (HON, Some("\u{307b}\u{3093}"))]),
        fur(HITO, "\u{3072}\u{3068}", &[(HITO, Some("\u{3072}\u{3068}"))]),
        fur(&nihonjin, "\u{306b}\u{307b}\u{3093}\u{3058}\u{3093}", &[
            (NICHI, Some("\u{306b}")),
            (HON, Some("\u{307b}\u{3093}")),
            (HITO, Some("\u{3058}\u{3093}")),
        ]),
        fur(&honjitsu, "\u{307b}\u{3093}\u{3058}\u{3064}", &[(HON, Some("\u{307b}\u{3093}")), (NICHI, Some("\u{3058}\u{3064}"))]),
        fur(NICHI, "\u{3072}", &[(NICHI, Some("\u{3072}"))]),
        fur(&hitobito, "\u{3072}\u{3068}\u{3073}\u{3068}", &[(HITO, Some("\u{3072}\u{3068}")), (HITO, Some("\u{3073}\u{3068}"))]),
        fur(NICHI, "\u{306b}\u{3061}", &[(NICHI, Some("\u{306b}\u{3061}"))]),
        fur(&honnin, "\u{307b}\u{3093}\u{306b}\u{3093}", &[(HON, Some("\u{307b}\u{3093}")), (HITO, Some("\u{306b}\u{3093}"))]),
    ];
    let freq_lines = vec![
        format!("{HITO} 9000"),
        format!("  {nihon}\t8000"),
        format!("{NICHI} 7000"),
        format!("{honjitsu} 100"),
    ];
    let jlpt = vec![
        (nihon.clone(), s("N5")),
        (s(HITO), s("N5")),
        (nihonjin.clone(), s("N5")),
        (honjitsu.clone(), s("N4")),
        (honjitsu.clone(), s("N3")),
        (s(NICHI), s("N5")),
        (honnin.clone(), s("N1")),
        (honnin.clone(), s("level?")),
    ];
    VocabSources { words, furigana, freq_lines, jlpt }
}

fn n5() -> Vec<String> {
    vec![s(NICHI), s(HON), s(HITO)]
}

fn levels() -> Vec<(String, i64)> {
    vec![(s(NICHI), 5), (s(HON), 5), (s(HITO), 5)]
}

#[test]
fn dominant_reading_is_the_most_contributed_one() {
    let vd = build(&n5(), &stored(), &levels(), &sources());
    assert_eq!(
        vd.dominant,
        vec![
            (s(HON), (s("\u{307b}\u{3093}"), s("on"))),
            (s(HITO), (s("\u{3072}\u{3068}"), s("kun"))),
            (s(NICHI), (s("\u{3058}\u{3064}"), s("on"))),
        ]
    );
}

#[test]
fn words_selected_cheapest_first_with_one_standalone_per_kanji() {
    let vd = build(&n5(), &stored(), &levels(), &sources());
    let surfaces: Vec<String> = vd.vocab.iter().map(|v| v.surface.clone()).collect();
    assert_eq!(
        surfaces,
        vec![
            format!("{NICHI}{HON}"),
            format!("{NICHI}{HON}{HITO}"),
            s(HITO),
            s(NICHI),
            format!("{HON}{NICHI}"),
            format!("{HITO}{HITO}"),
        ]
    );
    let first = &vd.vocab[0];
    assert_eq!(first.reading, "\u{306b}\u{307b}\u{3093}");
    assert_eq!(first.gloss, "Japan");
    assert_eq!(
        first.kanji_parts,
        vec![(s(NICHI), s("\u{306b}")), (s(HON), s("\u{307b}\u{3093}"))]
    );
}

#[test]
fn no_sources_no_vocab() {
    let src = VocabSources { words: vec![], furigana: vec![], freq_lines: vec![], jlpt: vec![] };
    let vd = build(&n5(), &stored(), &levels(), &src);
    assert!(vd.dominant.is_empty());
    assert!(vd.vocab.is_empty());
}

#[test]
fn quota_caps_a_kanji_at_six_words() {
    // Eight two-kanji compounds of 日 with other (unselected) kanji, each aligned.
    let others = ["\u{4e00}", "\u{4e8c}", "\u{4e09}", "\u{56db}", "\u{4e94}", "\u{516d}", "\u{4e03}", "\u{516b}"];
    let mut words = vec![];
    let mut furigana = vec![];
    for o in others.iter() {
        let surf = format!("{o}{NICHI}");
        words.push(word(&surf, "\u{304b}\u{3072}", "x"));
        furigana.push(fur(&surf, "\u{304b}\u{3072}", &[(o, Some("\u{304b}")), (NICHI, Some("\u{3072}"))]));
    }
    let lv: Vec<(String, i64)> = others.iter().map(|o| (s(o), 5)).chain(levels()).collect();
    let src = VocabSources { words, furigana, freq_lines: vec![], jlpt: vec![] };
    let vd = build(&n5(), &stored(), &lv, &src);
    assert_eq!(vd.vocab.len(), 6);
    assert_eq!(vd.vocab[0].surface, format!("{}{NICHI}", others[0]));
}

#[test]
fn cost_formula_exact_values() {
    // N5 compound with frequency rank 1.
    assert_eq!(cost_of(Some(5), 2, 3, Some(1)), 1);
    // N5 single-kanji word at rank 0.
    assert_eq!(cost_of(Some(5), 1, 2, Some(0)), 10_000_000);
    // Unlisted compound without a rank: tier 3, base 1_000_000 + 2*10 + 4.
    assert_eq!(cost_of(None, 2, 4, None), 301_000_024);
    // N4 and N3 tiers.
    assert_eq!(cost_of(Some(4), 2, 2, Some(3)), 100_000_003);
    assert_eq!(cost_of(Some(3), 3, 5, None), 201_000_035);
}

#[test]
fn jlpt_level_is_the_easiest_listed() {
    let src = sources();
    let honjitsu = format!("{HON}{NICHI}");
    assert_eq!(jlpt_level_of(&src.jlpt, &honjitsu), Some(4));
    assert_eq!(jlpt_level_of(&src.jlpt, &format!("{HON}{HITO}")), Some(1));
    assert_eq!(jlpt_level_of(&src.jlpt, &s("none")), None);
}

#[test]
fn appropriateness_by_list_or_kanji_levels() {
    let lv = vec![(s(NICHI), 5), (s("\u{96e3}"), 2)];
    let nichi: Vec<char> = NICHI.chars().collect();
    let hard: Vec<char> = "\u{96e3}".chars().collect();
    let kana: Vec<char> = "\u{3072}".chars().collect();
    assert!(is_appropriate(None, &nichi, &lv));
    assert!(!is_appropriate(None, &hard, &lv));
    assert!(is_appropriate(None, &kana, &lv));
    assert!(!is_appropriate(Some(2), &nichi, &lv));
    assert!(is_appropriate(Some(3), &hard, &lv));
    assert_eq!(kanji_level_of(&lv, '\u{96e3}'), Some(2));
    assert_eq!(kanji_level_of(&lv, 'x'), None);
}

#[test]
fn a_word_is_skipped_once_any_of_its_kanji_is_full() {
    // Six listed compounds fill 日's quota; the unlisted 日本 then has 日 at six words, so it is
    // not taken even though 本 has none yet.
    let others = ["\u{4e00}", "\u{4e8c}", "\u{4e09}", "\u{56db}", "\u{4e94}", "\u{516d}"];
    let mut words = vec![];
    let mut furigana = vec![];
    let mut jlpt = vec![];
    for o in others.iter() {
        let surf = format!("{o}{NICHI}");
        words.push(word(&surf, "\u{304b}\u{3072}", "x"));
        furigana.push(fur(&surf, "\u{304b}\u{3072}", &[(o, Some("\u{304b}")), (NICHI, Some("\u{3072}"))]));
        jlpt.push((surf.clone(), s("N5")));
    }
    let nihon = format!("{NICHI}{HON}");
    words.push(word(&nihon, "\u{306b}\u{307b}\u{3093}", "Japan"));
    furigana.push(fur(&nihon, "\u{306b}\u{307b}\u{3093}", &[(NICHI, Some("\u{306b}")), (HON, Some("\u{307b}\u{3093}"))]));
    let lv: Vec<(String, i64)> = others.iter().map(|o| (s(o), 5)).chain(levels()).collect();
    let src = VocabSources { words, furigana, freq_lines: vec![], jlpt };
    let vd = build(&n5(), &stored(), &lv, &src);
    assert_eq!(vd.vocab.len(), 6);
    assert!(vd.vocab.iter().all(|v| v.surface != nihon));
    let with_nichi = vd.vocab.iter().filter(|v| v.kanji_parts.iter().any(|(g, _)| g == NICHI)).count();
    assert_eq!(with_nichi, 6);
}
