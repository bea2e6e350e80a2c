use mnemokanji::domain::{Rating, TrackKind};
use mnemokanji::review::{change_setting, compute_dash, ReviewSession};
use mnemokanji::scheduler::{fuzz_seed, CardState};
use mnemokanji::session::{ContentView, Engine, KanjiMeta, Settings, StudyState};
use mnemokanji::time::Timestamp;

fn content() -> ContentView {
    ContentView {
        kanji: vec![
            KanjiMeta { id: 1, level: 5, intro_rank: 0, prereq_kanji: vec![] },
            KanjiMeta { id: 2, level: 5, intro_rank: 1, prereq_kanji: vec![] },
            KanjiMeta { id: 3, level: 5, intro_rank: 2, prereq_kanji: vec![1, 2] },
            KanjiMeta { id: 4, level: 4, intro_rank: 0, prereq_kanji: vec![] },
        ],
    }
}

fn snapshot(s: &StudyState) -> Vec<(i64, TrackKind, Timestamp, i32, u64, CardState)> {
    s.tracks()
        .iter()
        .map(|t| (t.kanji_id, t.kind, t.card.due(), t.card.reps(), t.card.stability_days(), t.card.state()))
        .collect()
}

#[test]
fn grade_then_undo_restores_state_and_queue() {
    let content = content();
    let engine = Engine::new(&content, Settings { new_per_day: 2, ..Default::default() });
    let mut state = StudyState::new(5);
    let now = Timestamp::from_secs(1_700_000_000);
    assert_eq!(engine.introduce_new(&mut state, now), vec![1, 2]);

    let mut session = ReviewSession::new();
    session.load(&engine, &state, now);
    let queue_before = session.queue().clone();
    assert_eq!(queue_before, vec![(1, TrackKind::Comprehension), (2, TrackKind::Comprehension)]);
    assert!(!session.can_undo());
    let before = snapshot(&state);

    let graded = session.grade(&engine, &mut state, Rating::Good, now);
    assert_eq!(graded, Some((1, TrackKind::Comprehension)));
    assert_eq!(session.current(), Some((2, TrackKind::Comprehension)));
    // A new card graded Good enters learning, due ten minutes later.
    let t = state.track(1, TrackKind::Comprehension).unwrap();
    assert_eq!(t.card.due(), now.plus_secs(600));
    assert_eq!(t.card.reps(), 1);
    assert_ne!(snapshot(&state), before);

    assert!(session.undo(&mut state));
    assert_eq!(snapshot(&state), before);
    assert_eq!(session.queue(), &queue_before);
    assert!(!session.can_undo());
    assert!(!session.undo(&mut state));
    assert_eq!(snapshot(&state), before);
}

#[test]
fn grading_an_empty_queue_does_nothing() {
    let content = content();
    let engine = Engine::new(&content, Settings::default());
    let mut state = StudyState::new(5);
    let now = Timestamp::from_secs(1_700_000_000);
    let mut session = ReviewSession::new();
    session.load(&engine, &state, now);
    assert_eq!(session.current(), None);
    assert_eq!(session.grade(&engine, &mut state, Rating::Again, now), None);
    assert!(state.tracks().is_empty());
    assert!(!session.can_undo());
}

#[test]
fn dashboard_counts() {
    let content = content();
    let engine = Engine::new(&content, Settings { new_per_day: 2, ..Default::default() });
    let mut state = StudyState::new(5);
    let now = Timestamp::from_secs(1_700_000_000);
    let d0 = compute_dash(&engine, &state, now, &[], 19_675, 0, 0);
    assert_eq!((d0.level, d0.total, d0.introduced, d0.due, d0.new_remaining), (5, 3, 0, 0, 2));
    engine.introduce_new(&mut state, now);
    let days = [19_673, 19_674, 19_675];
    let d1 = compute_dash(&engine, &state, now, &days, 19_675, 4, 1);
    assert_eq!((d1.introduced, d1.due, d1.new_remaining), (2, 2, 0));
    assert_eq!((d1.streak, d1.reviews_today, d1.offset_days), (3, 4, 1));
}

#[test]
fn settings_adjustments_are_clamped() {
    let s = Settings::default();
    let a = change_setting(s, 5, -10);
    assert_eq!((a.new_per_day, a.daily_review_cap), (15, 50));
    let b = change_setting(s, -100, 1000);
    assert_eq!((b.new_per_day, b.daily_review_cap), (1, 500));
    let c = change_setting(s, 1000, -1000);
    assert_eq!((c.new_per_day, c.daily_review_cap), (100, 10));
    assert_eq!(c.mature_stability_days, s.mature_stability_days);
}

#[test]
fn due_items_are_capped_and_earliest_first() {
    let content = content();
    let mut engine = Engine::new(&content, Settings { new_per_day: 2, daily_review_cap: 1, ..Default::default() });
    let mut state = StudyState::new(5);
    let t0 = Timestamp::from_secs(1_700_000_000);
    engine.introduce_new(&mut state, t0);
    // Kanji 1 graded Good at t0 (due +600 s); kanji 2 stays due at t0.
    engine.grade(&mut state, 1, TrackKind::Comprehension, &[Rating::Good], t0);
    let later = t0.plus_secs(3_600);
    assert_eq!(engine.due_items(&state, later), vec![(2, TrackKind::Comprehension)]);
    engine.settings.daily_review_cap = 10;
    assert_eq!(
        engine.due_items(&state, later),
        vec![(2, TrackKind::Comprehension), (1, TrackKind::Comprehension)]
    );
    // At t0 only kanji 2 is due.
    assert_eq!(engine.due_items(&state, t0), vec![(2, TrackKind::Comprehension)]);
}

#[test]
fn a_confident_first_answer_keeps_production_closed() {
    let content = content();
    let engine = Engine::new(&content, Settings { new_per_day: 1, ..Default::default() });
    let mut state = StudyState::new(5);
    let t0 = Timestamp::from_secs(1_700_000_000);
    engine.introduce_new(&mut state, t0);
    engine.grade(&mut state, 1, TrackKind::Comprehension, &[Rating::Easy], t0);
    let t = state.track(1, TrackKind::Comprehension).unwrap();
    assert_eq!(t.card.state(), CardState::Review);
    assert_eq!(t.card.stability_days(), 15);
    assert!(t.card.due().secs >= t0.secs + 86_400);
    assert!(!state.contains(1, TrackKind::Production));
}

#[test]
fn worst_rating_counts_and_empty_ratings_do_nothing() {
    let content = content();
    let engine = Engine::new(&content, Settings { new_per_day: 1, ..Default::default() });
    let mut state = StudyState::new(5);
    let t0 = Timestamp::from_secs(1_700_000_000);
    engine.introduce_new(&mut state, t0);
    engine.grade(&mut state, 1, TrackKind::Comprehension, &[], t0);
    assert_eq!(state.track(1, TrackKind::Comprehension).unwrap().card.reps(), 0);
    engine.grade(&mut state, 1, TrackKind::Comprehension, &[Rating::Easy, Rating::Again, Rating::Good], t0);
    let t = state.track(1, TrackKind::Comprehension).unwrap();
    assert_eq!(t.card.due(), t0.plus_secs(60));
    assert_eq!(t.card.state(), CardState::Learning);
}

#[test]
fn stored_memory_round_trips() {
    let mut m = rs_fsrs::Card::new();
    m.reps = 3;
    m.stability = 22.5;
    let c = mnemokanji::scheduler::StudyCard::from_memory(m.clone());
    assert_eq!(c.memory().reps, 3);
    assert_eq!(c.memory().stability, 22.5);
    assert_eq!(c.memory().due, m.due);
    assert_eq!((c.reps(), c.stability_days()), (3, 22));
}

#[test]
fn scheduler_settings_are_the_defaults_with_fuzz() {
    // A fresh card graded Easy is scheduled at least a day out (fuzz keeps it within range).
    let s = mnemokanji::scheduler::Scheduler::new();
    let now = Timestamp::from_secs(1_700_000_000);
    let card = mnemokanji::scheduler::Scheduler::new_card(now);
    let next = s.review(1, TrackKind::Comprehension, &card, Rating::Easy, now);
    assert!(next.due().secs >= now.secs + 86_400);
    assert!(next.due().secs <= now.secs + 36_500 * 86_400);
}

#[test]
fn fresh_card_has_no_lapses_and_was_last_reviewed_when_made() {
    let now = Timestamp { secs: 1_700_000_000, nanos: 250 };
    let card = mnemokanji::scheduler::Scheduler::new_card(now);
    assert_eq!(card.lapses(), 0);
    assert_eq!(card.last_review(), now);
    assert_eq!(card.due(), now);
    assert_eq!(card.state(), CardState::New);
}

#[test]
fn learning_steps_then_review_then_lapse() {
    let s = mnemokanji::scheduler::Scheduler::new();
    let t0 = Timestamp::from_secs(1_700_000_000);
    let card = mnemokanji::scheduler::Scheduler::new_card(t0);
    // New, Good: learning, 10 minutes.
    let c1 = s.review(7, TrackKind::Comprehension, &card, Rating::Good, t0);
    assert_eq!(c1.state(), CardState::Learning);
    assert_eq!(c1.due().secs, t0.secs + 600);
    assert_eq!(c1.last_review(), t0);
    // Learning, Again: stays learning, 5 minutes.
    let t1 = Timestamp::from_secs(t0.secs + 600);
    let c2 = s.review(7, TrackKind::Comprehension, &c1, Rating::Again, t1);
    assert_eq!(c2.state(), CardState::Learning);
    assert_eq!(c2.due().secs, t1.secs + 300);
    assert_eq!(c2.lapses(), 0);
    // Learning, Hard: stays learning, 10 minutes.
    let t2 = Timestamp::from_secs(t1.secs + 300);
    let c3 = s.review(7, TrackKind::Comprehension, &c2, Rating::Hard, t2);
    assert_eq!(c3.state(), CardState::Learning);
    assert_eq!(c3.due().secs, t2.secs + 600);
    // Learning, Good: review, at least a day out.
    let t3 = Timestamp::from_secs(t2.secs + 600);
    let c4 = s.review(7, TrackKind::Comprehension, &c3, Rating::Good, t3);
    assert_eq!(c4.state(), CardState::Review);
    assert!(c4.due().secs >= t3.secs + 86_400);
    assert_eq!(c4.reps(), 4);
    // Review, Again: relearning, 5 minutes, one lapse.
    let t4 = c4.due();
    let c5 = s.review(7, TrackKind::Comprehension, &c4, Rating::Again, t4);
    assert_eq!(c5.state(), CardState::Relearning);
    assert_eq!(c5.due().secs, t4.secs + 300);
    assert_eq!(c5.lapses(), 1);
    assert_eq!(c5.last_review(), t4);
    // Relearning, Easy: back to review, at least a day out.
    let t5 = c5.due();
    let c6 = s.review(7, TrackKind::Comprehension, &c5, Rating::Easy, t5);
    assert_eq!(c6.state(), CardState::Review);
    assert!(c6.due().secs >= t5.secs + 86_400);
    // Review, Hard: stays in review, at least a day out, no new lapse.
    let t6 = c6.due();
    let c7 = s.review(7, TrackKind::Comprehension, &c6, Rating::Hard, t6);
    assert_eq!(c7.state(), CardState::Review);
    assert!(c7.due().secs >= t6.secs + 86_400);
    assert_eq!(c7.lapses(), 1);
}

#[test]
fn fuzz_seeds_name_the_track() {
    assert_eq!(fuzz_seed(12, TrackKind::Comprehension), "12:comprehension");
    assert_eq!(fuzz_seed(0, TrackKind::Production), "0:production");
    assert_eq!(fuzz_seed(-45, TrackKind::Production), "-45:production");
    assert_eq!(fuzz_seed(i64::MIN, TrackKind::Comprehension), "-9223372036854775808:comprehension");
}

#[test]
fn undo_restores_the_full_memory_state() {
    let content = content();
    let engine = Engine::new(&content, Settings { new_per_day: 1, ..Default::default() });
    let mut state = StudyState::new(5);
    let now = Timestamp::from_secs(1_700_000_000);
    engine.introduce_new(&mut state, now);
    let before: Vec<rs_fsrs::Card> = state.tracks().iter().map(|t| t.card.memory().clone()).collect();
    let mut session = ReviewSession::new();
    session.load(&engine, &state, now);
    session.grade(&engine, &mut state, Rating::Easy, now);
    assert_ne!(state.tracks()[0].card.memory().reps, before[0].reps);
    assert!(session.undo(&mut state));
    let after: Vec<rs_fsrs::Card> = state.tracks().iter().map(|t| t.card.memory().clone()).collect();
    assert_eq!(after.len(), before.len());
    for (a, b) in after.iter().zip(before.iter()) {
        assert_eq!(a.reps, b.reps);
        assert_eq!(a.lapses, b.lapses);
        assert_eq!(a.due, b.due);
        assert_eq!(a.last_review, b.last_review);
        assert_eq!(a.stability, b.stability);
        assert_eq!(a.difficulty, b.difficulty);
    }
}

#[test]
fn grading_applies_the_worst_rating_once() {
    let content = content();
    let engine = Engine::new(&content, Settings { new_per_day: 1, ..Default::default() });
    let mut state = StudyState::new(5);
    let now = Timestamp::from_secs(1_700_000_000);
    engine.introduce_new(&mut state, now);
    let fresh = state.track(1, TrackKind::Comprehension).unwrap();
    assert_eq!(fresh.card.last_rating(), None);
    engine.grade(&mut state, 1, TrackKind::Comprehension, &[Rating::Easy, Rating::Hard, Rating::Good], now);
    let t = state.track(1, TrackKind::Comprehension).unwrap();
    assert_eq!(t.card.last_rating(), Some(Rating::Hard));
    assert_eq!(t.card.reps(), 1);
    assert_eq!(t.card.due().secs, now.secs + 300);
}
