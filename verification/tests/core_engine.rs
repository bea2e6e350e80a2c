use mnemokanji::domain::{Rating, TrackKind};
use mnemokanji::scheduler::{comprehension_mature, Scheduler};
use mnemokanji::session::{ContentView, Engine, KanjiMeta, Settings, StudyState, Track};
use mnemokanji::time::Timestamp;

/// Small synthetic curriculum: N5 has 3 kanji (k3 needs k1, k2); N4 has 2.
fn content() -> ContentView {
    ContentView {
        kanji: vec![
            KanjiMeta { id: 1, level: 5, intro_rank: 0, prereq_kanji: vec![] },
            KanjiMeta { id: 2, level: 5, intro_rank: 1, prereq_kanji: vec![] },
            KanjiMeta { id: 3, level: 5, intro_rank: 2, prereq_kanji: vec![1, 2] },
            KanjiMeta { id: 4, level: 4, intro_rank: 0, prereq_kanji: vec![] },
            KanjiMeta { id: 5, level: 4, intro_rank: 1, prereq_kanji: vec![] },
        ],
    }
}

#[test]
fn version_is_non_empty() {
    assert!(!mnemokanji::version().is_empty());
}

#[test]
fn k3_introduced_only_after_its_prerequisites() {
    let content = content();
    let settings = Settings { new_per_day: 1, ..Default::default() };
    let engine = Engine::new(&content, settings);
    let mut state = StudyState::new(5);
    let now = Timestamp::from_secs(1_700_000_000);

    // Day 0: only k1 (rank 0) can be introduced (budget 1).
    let d0 = engine.introduce_new(&mut state, now);
    assert_eq!(d0, vec![1]);
    // k3 is not introducible yet (needs k2 too).
    assert!(!state.contains(3, TrackKind::Comprehension));
}

#[test]
fn multi_day_run_matures_activates_production_and_unlocks_n4() {
    let content = content();
    let settings = Settings { new_per_day: 2, ..Default::default() };
    let engine = Engine::new(&content, settings);
    let mut state = StudyState::new(5);
    let mut now = Timestamp::from_secs(1_700_000_000);

    let mut production_seen = false;
    let mut n4_introduced_while_n5_locked = false;

    for _day in 0..150 {
        engine.introduce_new(&mut state, now);
        for (kid, kind) in engine.due_items(&state, now) {
            engine.grade(&mut state, kid, kind, &[Rating::Good], now);
        }
        if state.tracks().iter().any(|t| t.kind == TrackKind::Production) {
            production_seen = true;
        }
        // N4 must never be introduced while N5 is still the unlocked level.
        if state.unlocked_level() == 5 && state.contains(4, TrackKind::Comprehension) {
            n4_introduced_while_n5_locked = true;
        }
        now = now.plus_days(1);
    }

    // All three N5 kanji introduced and matured.
    for id in [1, 2, 3] {
        let t = state
            .track(id, TrackKind::Comprehension)
            .unwrap_or_else(|| panic!("kanji {id} comprehension track missing"));
        assert!(
            comprehension_mature(&t.card, 21),
            "kanji {id} comprehension should be mature (stability {})",
            t.card.stability_days()
        );
    }
    assert!(production_seen, "production track should activate after comprehension matures");
    assert!(!n4_introduced_while_n5_locked, "N4 must not be introduced before it unlocks");
    // N5 must have cleared; with only 5 kanji over 150 days it cascades further.
    assert!(
        state.unlocked_level() <= 4,
        "N5 should clear (unlock the next level) once ≥90% of N5 is mature; got level {}",
        state.unlocked_level()
    );
    assert!(
        state.contains(4, TrackKind::Comprehension),
        "an N4 kanji should be introduced after N5 unlocks"
    );
}

#[test]
fn track_kind_names_round_trip() {
    for k in [TrackKind::Comprehension, TrackKind::Production] {
        assert_eq!(k.as_str().parse::<TrackKind>(), Ok(k));
        assert_eq!(TrackKind::parse(k.as_str()), Ok(k));
    }
    assert_eq!(TrackKind::parse("Comprehension"), Err(()));
    assert_eq!("".parse::<TrackKind>(), Err(()));
    assert_eq!(Rating::Again.value(), 1);
    assert_eq!(Rating::Easy.value(), 4);
}

#[test]
fn orphan_tracks_use_no_budget_and_are_never_due() {
    let content = content();
    let engine = Engine::new(&content, Settings { new_per_day: 1, ..Default::default() });
    let mut state = StudyState::new(5);
    let now = Timestamp::from_secs(1_700_000_000);
    // Kanji 999 is not in the content: its track is kept but quarantined.
    state.insert_track(Track {
        kanji_id: 999,
        kind: TrackKind::Comprehension,
        card: Scheduler::new_card(now),
        introduced_at: now,
    });
    assert_eq!(engine.new_remaining_today(&state, now), 1);
    assert!(engine.due_items(&state, now).iter().all(|(id, _)| *id != 999));
    assert_eq!(engine.introduce_new(&mut state, now), vec![1]);
    assert!(state.contains(999, TrackKind::Comprehension));
    assert_eq!(engine.due_items(&state, now), vec![(1, TrackKind::Comprehension)]);
}

#[test]
fn production_waits_a_day_when_comprehension_falls_due_the_same_day() {
    let content = content();
    let engine = Engine::new(&content, Settings::default());
    let mut state = StudyState::new(5);
    // 1_699_920_000 is the start of a UTC day.
    let day_start = Timestamp::from_secs(1_699_920_000);
    let now = Timestamp::from_secs(1_699_920_000 + 3_600);
    let later_today = Timestamp::from_secs(1_699_920_000 + 80_000);
    let tomorrow = Timestamp::from_secs(1_699_920_000 + 86_400 + 10);
    // Kanji 1: comprehension due later today, production already due.
    state.insert_track(Track { kanji_id: 1, kind: TrackKind::Comprehension, card: Scheduler::new_card(later_today), introduced_at: day_start });
    state.insert_track(Track { kanji_id: 1, kind: TrackKind::Production, card: Scheduler::new_card(day_start), introduced_at: day_start });
    // Kanji 2: comprehension due tomorrow, production already due.
    state.insert_track(Track { kanji_id: 2, kind: TrackKind::Comprehension, card: Scheduler::new_card(tomorrow), introduced_at: day_start });
    state.insert_track(Track { kanji_id: 2, kind: TrackKind::Production, card: Scheduler::new_card(day_start), introduced_at: day_start });
    assert_eq!(engine.due_items(&state, now), vec![(2, TrackKind::Production)]);
}

#[test]
fn version_is_the_package_version() {
    assert_eq!(mnemokanji::version(), "0.1.0");
}
