use mnemokanji::sentence::{build, Example, ExampleWord, MAX_LEN, MAX_SENTENCES_PER_WORD, MIN_LEN};

fn ex(source: &str, sents: &[(&str, &str)]) -> Example {
    Example {
        source: source.to_string(),
        sentences: sents.iter().map(|(l, t)| (l.to_string(), t.to_string())).collect(),
    }
}

const GAKKOU: &str = "\u{5b66}\u{6821}"; // 学校
const GAKUSEI: &str = "\u{5b66}\u{751f}"; // 学生

fn words() -> Vec<ExampleWord> {
    vec![
        ExampleWord {
            kanji: vec![GAKKOU.to_string(), GAKKOU.to_string()],
            examples: vec![
                // これは私の学校です。 (10 characters)
                ex("1", &[("jpn", "\u{3053}\u{308c}\u{306f}\u{79c1}\u{306e}\u{5b66}\u{6821}\u{3067}\u{3059}\u{3002}"), ("eng", "This is my school.")]),
                // 学校。 (too short)
                ex("2", &[("jpn", "\u{5b66}\u{6821}\u{3002}"), ("eng", "School.")]),
                // no translation
                ex("3", &[("jpn", "\u{5b66}\u{6821}\u{306b}\u{884c}\u{304d}\u{307e}\u{3059}\u{3002}")]),
                // 学校に行きます。 (8 characters)
                ex("4", &[("eng", "I go to school."), ("jpn", "\u{5b66}\u{6821}\u{306b}\u{884c}\u{304d}\u{307e}\u{3059}\u{3002}")]),
                // 私の学校はとても大きいです。 (14 characters)
                ex("5", &[("jpn", "\u{79c1}\u{306e}\u{5b66}\u{6821}\u{306f}\u{3068}\u{3066}\u{3082}\u{5927}\u{304d}\u{3044}\u{3067}\u{3059}\u{3002}"), ("eng", "My school is very big.")]),
            ],
        },
        ExampleWord {
            kanji: vec![GAKUSEI.to_string()],
            examples: vec![
                // 学生です。 (too short)
                ex("6", &[("jpn", "\u{5b66}\u{751f}\u{3067}\u{3059}\u{3002}"), ("eng", "A student.")]),
                // 彼は学生です。 (7 characters)
                ex("7", &[("jpn", "\u{5f7c}\u{306f}\u{5b66}\u{751f}\u{3067}\u{3059}\u{3002}"), ("eng", "He is a student.")]),
                ex("8", &[("jpn", "\u{5f7c}\u{306f}\u{5b66}\u{751f}\u{3067}\u{3059}\u{3002}"), ("eng", "He's a student.")]),
            ],
        },
        ExampleWord {
            kanji: vec!["\u{5148}\u{751f}".to_string()],
            examples: vec![ex("9", &[("jpn", "\u{5148}\u{751f}\u{306f}\u{4f18}\u{3057}\u{3044}\u{3067}\u{3059}\u{3002}"), ("eng", "The teacher is kind.")])],
        },
    ]
}

#[test]
fn keeps_shortest_translated_sentences_per_word() {
    let wanted = vec![GAKKOU.to_string(), GAKUSEI.to_string()];
    let r = build(&words(), &wanted);
    assert_eq!(r.len(), 2);
    assert_eq!(r[0].0, GAKKOU);
    let jp: Vec<&str> = r[0].1.iter().map(|s| s.jp.as_str()).collect();
    assert_eq!(
        jp,
        vec![
            "\u{5b66}\u{6821}\u{306b}\u{884c}\u{304d}\u{307e}\u{3059}\u{3002}",
            "\u{3053}\u{308c}\u{306f}\u{79c1}\u{306e}\u{5b66}\u{6821}\u{3067}\u{3059}\u{3002}",
        ]
    );
    assert_eq!(r[0].1[0].en, "I go to school.");
    assert_eq!(r[0].1[0].source, "tatoeba:4");
    assert_eq!(r[1].0, GAKUSEI);
    assert_eq!(r[1].1.len(), 1);
    assert_eq!(r[1].1[0].en, "He is a student.");
    assert_eq!(r[1].1[0].source, "tatoeba:7");
}

#[test]
fn nothing_wanted_nothing_kept() {
    let r = build(&words(), &vec![]);
    assert!(r.is_empty());
    assert_eq!((MIN_LEN, MAX_LEN, MAX_SENTENCES_PER_WORD), (6, 40, 2));
}
