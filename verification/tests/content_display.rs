use mnemokanji::content::{
    cloze, dominant_reading, level_num, KanjiDetail, Reading, SentenceItem, VocabItem,
};

fn detail(vocab: &[(&str, &str, &str)], sentences: &[(&str, &str)]) -> KanjiDetail {
    KanjiDetail {
        id: 1,
        glyph: "\u{5b66}".into(),
        keyword: "study".into(),
        stroke_count: Some(8),
        meanings: vec![],
        readings: vec![],
        vocab: vocab
            .iter()
            .map(|(s, r, g)| VocabItem {
                surface: (*s).into(),
                reading: (*r).into(),
                gloss: (*g).into(),
            })
            .collect(),
        sentences: sentences
            .iter()
            .map(|(jp, en)| SentenceItem {
                jp: (*jp).into(),
                en: (*en).into(),
            })
            .collect(),
        mnemonic: None,
        stroke_paths: vec![],
        components: vec![],
    }
}

#[test]
fn cloze_blanks_the_matching_vocab_word() {
    let k = detail(
        &[(
            "\u{5b66}\u{6821}",
            "\u{304c}\u{3063}\u{3053}\u{3046}",
            "school",
        )],
        &[("\u{3053}\u{306e}\u{5b66}\u{6821}\u{3002}", "This school.")],
    );
    let (q, a, _) = cloze(&k);
    assert!(q.unwrap().contains("____"), "question should be blanked");
    assert!(
        !a.unwrap().contains("____"),
        "answer should be the full sentence"
    );
}

#[test]
fn cloze_falls_back_to_full_sentence_when_no_vocab_matches() {
    let k = detail(
        &[("\u{72ac}", "\u{3044}\u{306c}", "dog")],
        &[("\u{732b}\u{3002}", "Cat.")],
    );
    let (q, _, _) = cloze(&k);
    assert_eq!(q.unwrap(), "\u{732b}\u{3002}");
}

#[test]
fn cloze_exact_prompt_answer_and_translation() {
    let k = detail(
        &[("\u{5b66}\u{6821}", "\u{304c}\u{3063}\u{3053}\u{3046}", "school")],
        &[
            ("\u{732b}\u{3002}", "Cat."),
            ("\u{3053}\u{306e}\u{5b66}\u{6821}\u{3002}", "This school."),
        ],
    );
    let (q, a, en) = cloze(&k);
    assert_eq!(q.as_deref(), Some("\u{3053}\u{306e}\u{3000}____\u{3000}\u{3002}"));
    assert_eq!(a.as_deref(), Some("\u{3053}\u{306e}\u{5b66}\u{6821}\u{3002}"));
    assert_eq!(en.as_deref(), Some("This school."));
}

#[test]
fn cloze_without_sentences_is_empty() {
    let k = detail(&[("\u{72ac}", "\u{3044}\u{306c}", "dog")], &[]);
    assert_eq!(cloze(&k), (None, None, None));
}

#[test]
fn dominant_reading_lists_marked_readings_in_order() {
    let mut k = detail(&[], &[]);
    k.readings = vec![
        Reading { kind: "on".into(), reading: "\u{30ac}\u{30af}".into(), is_dominant: true },
        Reading { kind: "kun".into(), reading: "\u{307e}\u{306a}.\u{3076}".into(), is_dominant: false },
        Reading { kind: "on".into(), reading: "\u{30b3}\u{30a6}".into(), is_dominant: true },
    ];
    assert_eq!(dominant_reading(&k), "\u{30ac}\u{30af}   \u{30b3}\u{30a6}");
    k.readings.clear();
    assert_eq!(dominant_reading(&k), "");
}

#[test]
fn level_labels_map_to_numbers() {
    assert_eq!(level_num("N5"), 5);
    assert_eq!(level_num("N1"), 1);
    assert_eq!(level_num("N0"), 0);
    assert_eq!(level_num(""), 0);
}

#[test]
fn cloze_blanks_every_occurrence_from_the_left() {
    // "ああ" occurs in "あああ" twice, overlapping: only the first match is blanked.
    let k = detail(&[("\u{3042}\u{3042}", "aa", "x")], &[("\u{3042}\u{3042}\u{3042}\u{3044}\u{3042}\u{3042}", "en")]);
    let (q, a, _) = cloze(&k);
    assert_eq!(
        q.as_deref(),
        Some("\u{3000}____\u{3000}\u{3042}\u{3044}\u{3000}____\u{3000}")
    );
    assert_eq!(a.as_deref(), Some("\u{3042}\u{3042}\u{3042}\u{3044}\u{3042}\u{3042}"));
}

#[test]
fn cloze_with_an_empty_word_blanks_every_gap_as_std_replace_does() {
    let k = detail(&[("", "", "x")], &[("\u{3042}\u{3044}", "en")]);
    let (q, _, _) = cloze(&k);
    let expected = "\u{3042}\u{3044}".replace("", "\u{3000}____\u{3000}");
    assert_eq!(q.as_deref(), Some(expected.as_str()));
    assert_eq!(
        expected,
        "\u{3000}____\u{3000}\u{3042}\u{3000}____\u{3000}\u{3044}\u{3000}____\u{3000}"
    );
}

#[test]
fn cloze_replace_agrees_with_std() {
    for (jp, w) in [("\u{3042}\u{3042}\u{3042}", "\u{3042}\u{3042}"), ("\u{304b}\u{304d}\u{304b}", "\u{304b}"), ("\u{5b66}\u{6821}\u{5b66}", "\u{5b66}\u{6821}")] {
        let k = detail(&[(w, "r", "g")], &[(jp, "en")]);
        let (q, _, _) = cloze(&k);
        assert_eq!(q, Some(jp.replace(w, "\u{3000}____\u{3000}")));
    }
}
