use std::collections::HashSet;

use chrono::NaiveDate;
use mnemokanji::domain::TrackKind;
use mnemokanji::scheduler::Scheduler;
use mnemokanji::session::{StudyState, Track};
use mnemokanji::stats::{introduced_count, mastery_counts, streak};
use mnemokanji::stroke::extract_paths;
use mnemokanji::time::{Day, Timestamp};

fn d(y: i32, m: u32, day: u32) -> Day {
    let epoch = NaiveDate::from_ymd_opt(1970, 1, 1).unwrap();
    (NaiveDate::from_ymd_opt(y, m, day).unwrap() - epoch).num_days()
}

#[test]
fn extracts_paths_not_ids() {
    let svg = r#"<g id="kvg:StrokePaths_065e5"><path id="kvg:065e5-s1" d="M31.5,24.5z"/><path id="kvg:065e5-s2" d="M33.4,26z"/></g>"#;
    assert_eq!(extract_paths(svg), vec!["M31.5,24.5z", "M33.4,26z"]);
}

#[test]
fn empty_history_is_zero() {
    assert_eq!(streak(&[], d(2026, 6, 29)), (0, 0));
}

/// Progress counts quarantine orphan tracks (id not in content).
#[test]
fn progress_counts_quarantine_orphans() {
    let now = Timestamp::from_secs(1_700_000_000);
    let active: HashSet<i64> = [19968, 19971].into_iter().collect();
    let mut state = StudyState::default();
    // One active mature, one active new, one orphan mature (999 not active).
    for (id, stability, reps) in [(19968, 30, 5), (19971, 0, 0), (999, 30, 5)] {
        let card = Scheduler::new_card(now).with_memory(stability, reps);
        state.insert_track(Track { kanji_id: id, kind: TrackKind::Comprehension, card, introduced_at: now });
    }
    // A production track never counts as "introduced".
    state.insert_track(Track {
        kanji_id: 19968,
        kind: TrackKind::Production,
        card: Scheduler::new_card(now),
        introduced_at: now,
    });

    assert_eq!(introduced_count(&state, &active), 2, "orphan excluded");
    assert_eq!(
        mastery_counts(&state, &active, 21),
        [1, 0, 0, 1],
        "one new + one mature; the mature orphan must not count"
    );
}

#[test]
fn current_streak_alive_today() {
    let days = [d(2026, 6, 27), d(2026, 6, 28), d(2026, 6, 29)];
    assert_eq!(streak(&days, d(2026, 6, 29)), (3, 3));
}

#[test]
fn current_streak_alive_yesterday_not_broken_yet() {
    // studied through yesterday; today not yet: streak still alive.
    let days = [d(2026, 6, 27), d(2026, 6, 28)];
    assert_eq!(streak(&days, d(2026, 6, 29)).0, 2);
}

#[test]
fn current_breaks_after_a_gap_but_longest_remembers() {
    let days = [d(2026, 6, 1), d(2026, 6, 2), d(2026, 6, 3), d(2026, 6, 28)];
    // today is the 30th: last study (28th) is two days ago, so current 0; longest run was 3.
    assert_eq!(streak(&days, d(2026, 6, 30)), (0, 3));
}
