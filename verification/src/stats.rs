//! Progress and engagement helpers: mastery buckets and a humane study streak.
//!
//! The streak is "alive" if you studied today *or* yesterday (so missing the current day does
//! not instantly zero it). Engagement is informational: it never gates or alters the learning.

use vstd::prelude::*;
use std::collections::HashSet;
use crate::domain::TrackKind;
use crate::scheduler::{CardView, StudyCard};
use crate::session::{StudyState, Track};
use crate::time::Day;

verus! {

broadcast use vstd::std_specs::hash::group_hash_axioms;

/// How well-learned a track is, by FSRS stability (cf. the young/mature split at ~21 days).
#[derive(Clone, Copy, Debug, PartialEq, Eq, Structural)]
pub enum Mastery {
    New,
    Learning,
    Young,
    Mature,
}

/// Stability (whole days) below which a reviewed card is still learning.
pub const LEARNING_STABILITY_DAYS: u64 = 7;

/// The display name of a mastery bucket.
pub open spec fn mastery_name(m: Mastery) -> Seq<char> {
    match m {
        Mastery::New => "new"@,
        Mastery::Learning => "learning"@,
        Mastery::Young => "young"@,
        Mastery::Mature => "mature"@,
    }
}

impl Mastery {
    /// The display name: `"new"`, `"learning"`, `"young"` or `"mature"`.
    pub fn as_str(self) -> (s: &'static str)
        ensures
            s@ == mastery_name(self),
    {
        match self {
            Mastery::New => "new",
            Mastery::Learning => "learning",
            Mastery::Young => "young",
            Mastery::Mature => "mature",
        }
    }

    /// The bucket's position in `[new, learning, young, mature]`.
    pub fn index(self) -> (i: usize)
        ensures
            i == mastery_index(self),
    {
        match self {
            Mastery::New => 0,
            Mastery::Learning => 1,
            Mastery::Young => 2,
            Mastery::Mature => 3,
        }
    }
}

/// The bucket's position in `[new, learning, young, mature]`.
pub open spec fn mastery_index(m: Mastery) -> int {
    match m {
        Mastery::New => 0,
        Mastery::Learning => 1,
        Mastery::Young => 2,
        Mastery::Mature => 3,
    }
}

/// The mastery bucket of a card: never reviewed; stability under a week; under the maturity
/// threshold; or mature.
pub open spec fn spec_mastery(c: CardView, mature_days: u32) -> Mastery {
    if c.reps == 0 {
        Mastery::New
    } else if c.stability_days < LEARNING_STABILITY_DAYS {
        Mastery::Learning
    } else if c.stability_days < mature_days {
        Mastery::Young
    } else {
        Mastery::Mature
    }
}

/// Classify a card's mastery. `mature_days` is the level-clear stability threshold (21).
pub fn mastery(card: &StudyCard, mature_days: u32) -> (m: Mastery)
    ensures
        m == spec_mastery(card@, mature_days),
{
    if card.reps() == 0 {
        Mastery::New
    } else if card.stability_days() < LEARNING_STABILITY_DAYS {
        Mastery::Learning
    } else if card.stability_days() < mature_days as u64 {
        Mastery::Young
    } else {
        Mastery::Mature
    }
}

/// The track counts toward progress: a comprehension track of a kanji in the active content.
pub open spec fn counts_toward_progress(t: Track, active: Set<i64>) -> bool {
    t.kind == TrackKind::Comprehension && active.contains(t.kanji_id)
}

/// Among the first `n` tracks, those counting toward progress.
pub open spec fn progress_count(ts: Seq<Track>, active: Set<i64>, n: int) -> nat
    decreases n,
{
    if n <= 0 {
        0
    } else {
        progress_count(ts, active, n - 1) + if counts_toward_progress(ts[n - 1], active) {
            1nat
        } else {
            0nat
        }
    }
}

/// Among the first `n` tracks, those counting toward progress in mastery bucket `m`.
pub open spec fn bucket_count(ts: Seq<Track>, active: Set<i64>, mature_days: u32, m: Mastery, n: int) -> nat
    decreases n,
{
    if n <= 0 {
        0
    } else {
        bucket_count(ts, active, mature_days, m, n - 1) + if counts_toward_progress(ts[n - 1], active)
            && spec_mastery(ts[n - 1].card@, mature_days) == m {
            1nat
        } else {
            0nat
        }
    }
}

/// Number of introduced kanji: comprehension tracks whose kanji is in the active content.
/// Orphan tracks (id not in `active`) never count.
pub fn introduced_count(state: &StudyState, active: &HashSet<i64>) -> (n: usize)
    ensures
        n == progress_count(state.spec_tracks(), active@, state.spec_tracks().len() as int),
{
    let tracks = state.tracks();
    let mut n: usize = 0;
    let mut i: usize = 0;
    while i < tracks.len()
        invariant
            i <= tracks@.len(),
            tracks@ == state.spec_tracks(),
            n == progress_count(tracks@, active@, i as int),
            n <= i,
        decreases tracks.len() - i,
    {
        let t = &tracks[i];
        if t.kind == TrackKind::Comprehension && active.contains(&t.kanji_id) {
            n = n + 1;
        }
        i = i + 1;
    }
    n
}

/// Mastery-bucket counts `[new, learning, young, mature]` over the active comprehension
/// tracks. Orphan tracks (id not in `active`) are left out, as everywhere else.
pub fn mastery_counts(state: &StudyState, active: &HashSet<i64>, mature_days: u32) -> (c: [usize; 4])
    ensures
        c@[0] == bucket_count(state.spec_tracks(), active@, mature_days, Mastery::New, state.spec_tracks().len() as int),
        c@[1] == bucket_count(state.spec_tracks(), active@, mature_days, Mastery::Learning, state.spec_tracks().len() as int),
        c@[2] == bucket_count(state.spec_tracks(), active@, mature_days, Mastery::Young, state.spec_tracks().len() as int),
        c@[3] == bucket_count(state.spec_tracks(), active@, mature_days, Mastery::Mature, state.spec_tracks().len() as int),
{
    let tracks = state.tracks();
    let ghost ts = tracks@;
    let ghost a = active@;
    let (mut c0, mut c1, mut c2, mut c3): (usize, usize, usize, usize) = (0, 0, 0, 0);
    let mut i: usize = 0;
    while i < tracks.len()
        invariant
            i <= ts.len(),
            ts == tracks@,
            a == active@,
            c0 == bucket_count(ts, a, mature_days, Mastery::New, i as int),
            c1 == bucket_count(ts, a, mature_days, Mastery::Learning, i as int),
            c2 == bucket_count(ts, a, mature_days, Mastery::Young, i as int),
            c3 == bucket_count(ts, a, mature_days, Mastery::Mature, i as int),
            c0 + c1 + c2 + c3 <= i,
        decreases tracks.len() - i,
    {
        let t = &tracks[i];
        if t.kind == TrackKind::Comprehension && active.contains(&t.kanji_id) {
            match mastery(&t.card, mature_days) {
                Mastery::New => { c0 = c0 + 1; },
                Mastery::Learning => { c1 = c1 + 1; },
                Mastery::Young => { c2 = c2 + 1; },
                Mastery::Mature => { c3 = c3 + 1; },
            }
        }
        i = i + 1;
    }
    [c0, c1, c2, c3]
}

/// The buckets by stability: a card never reviewed is new; a reviewed card is learning while
/// its stability is under seven days, young from seven days until it reaches `mature_days`,
/// and mature from then on.
pub proof fn law_mastery_by_stability(c: CardView, mature_days: u32)
    ensures
        c.reps == 0 ==> spec_mastery(c, mature_days) == Mastery::New,
        c.reps != 0 && c.stability_days < 7 ==> spec_mastery(c, mature_days) == Mastery::Learning,
        c.reps != 0 && 7 <= c.stability_days < mature_days ==> spec_mastery(c, mature_days) == Mastery::Young,
        c.reps != 0 && c.stability_days >= 7 && c.stability_days >= mature_days ==> spec_mastery(c, mature_days)
            == Mastery::Mature,
{
}

/// The four mastery buckets split exactly the tracks that count toward progress.
pub proof fn law_buckets_partition_progress(ts: Seq<Track>, active: Set<i64>, mature_days: u32, n: int)
    ensures
        bucket_count(ts, active, mature_days, Mastery::New, n) + bucket_count(ts, active, mature_days, Mastery::Learning, n)
            + bucket_count(ts, active, mature_days, Mastery::Young, n) + bucket_count(ts, active, mature_days, Mastery::Mature, n)
            == progress_count(ts, active, n),
    decreases n,
{
    if n > 0 {
        law_buckets_partition_progress(ts, active, mature_days, n - 1);
    }
}

// ---------------------------------------------------------------------------------------------
// Streaks.
// ---------------------------------------------------------------------------------------------

/// Day `b` is the day after day `a`.
pub open spec fn next_day(a: Day, b: Day) -> bool {
    a + 1 == b
}

/// Length of the run of consecutive days ending at position `i`.
pub open spec fn run_ending_at(days: Seq<Day>, i: int) -> nat
    decreases i,
{
    if i <= 0 {
        1
    } else if next_day(days[i - 1], days[i]) {
        run_ending_at(days, i - 1) + 1
    } else {
        1
    }
}

/// The longest run of consecutive days among the first `n` entries (0 for none).
pub open spec fn longest_run(days: Seq<Day>, n: int) -> nat
    decreases n,
{
    if n <= 0 {
        0
    } else {
        let prev = longest_run(days, n - 1);
        let here = run_ending_at(days, n - 1);
        if here > prev {
            here
        } else {
            prev
        }
    }
}

/// The current streak: the run ending at the most recent study day, provided that day is
/// today or yesterday; otherwise 0.
pub open spec fn current_streak(days: Seq<Day>, today: Day) -> nat {
    if days.len() == 0 {
        0
    } else if days.last() == today || next_day(days.last(), today) {
        run_ending_at(days, days.len() - 1)
    } else {
        0
    }
}

proof fn lemma_run_bounded(days: Seq<Day>, i: int)
    requires
        0 <= i,
    ensures
        1 <= run_ending_at(days, i) <= i + 1,
    decreases i,
{
    if i > 0 {
        lemma_run_bounded(days, i - 1);
    }
}

proof fn lemma_longest_bounds(days: Seq<Day>, n: int)
    requires
        0 <= n,
    ensures
        longest_run(days, n) <= n,
        n > 0 ==> longest_run(days, n) >= 1,
        forall|i: int| 0 <= i < n ==> run_ending_at(days, i) <= longest_run(days, n),
    decreases n,
{
    if n > 0 {
        lemma_longest_bounds(days, n - 1);
        lemma_run_bounded(days, n - 1);
    }
}

/// Current and longest study streak (in days) from a sorted, unique list of study days. The
/// current streak counts back from the most recent day only if that day is today or yesterday.
pub fn streak(days_sorted_unique: &[Day], today: Day) -> (r: (u32, u32))
    requires
        days_sorted_unique@.len() < u32::MAX,
    ensures
        r.0 == current_streak(days_sorted_unique@, today),
        r.1 == longest_run(days_sorted_unique@, days_sorted_unique@.len() as int),
{
    let days = days_sorted_unique;
    if days.len() == 0 {
        return (0, 0);
    }
    // Longest consecutive run anywhere in the history.
    let mut longest: u32 = 1;
    let mut run: u32 = 1;
    let mut i: usize = 1;
    assert(run_ending_at(days@, 0) == 1);
    assert(longest_run(days@, 0) == 0);
    assert(longest_run(days@, 1) == 1);
    while i < days.len()
        invariant
            1 <= i <= days@.len() < u32::MAX,
            run == run_ending_at(days@, i - 1),
            longest == longest_run(days@, i as int),
            run <= i,
        decreases days.len() - i,
    {
        proof {
            lemma_run_bounded(days@, i - 1);
        }
        if days[i - 1] != i64::MAX && days[i - 1] + 1 == days[i] {
            run = run + 1;
            if run > longest {
                longest = run;
            }
        } else {
            run = 1;
            proof {
                lemma_longest_bounds(days@, i as int);
            }
        }
        i = i + 1;
    }
    // Current run, ending at the most recent day, alive only if that day is today or yesterday.
    let last = days[days.len() - 1];
    let alive = last == today || (today != i64::MIN && last == today - 1);
    let current = if alive {
        let mut c: u32 = 1;
        let mut k: usize = days.len() - 1;
        while k > 0 && days[k - 1] != i64::MAX && days[k - 1] + 1 == days[k]
            invariant
                k < days@.len() < u32::MAX,
                c + k == days@.len(),
                run_ending_at(days@, days@.len() - 1) == run_ending_at(days@, k as int) + c - 1,
            decreases k,
        {
            c = c + 1;
            k = k - 1;
        }
        c
    } else {
        0
    };
    (current, longest)
}

/// A streak is never longer than the longest run; any history has a run of at least one day;
/// and the current streak is alive exactly when the last study day is today or yesterday.
pub proof fn law_streak_bounds(days: Seq<Day>, today: Day)
    ensures
        current_streak(days, today) <= longest_run(days, days.len() as int),
        longest_run(days, days.len() as int) <= days.len(),
        days.len() > 0 ==> longest_run(days, days.len() as int) >= 1,
        current_streak(days, today) > 0 <==> (days.len() > 0 && (days.last() == today || next_day(
            days.last(),
            today,
        ))),
{
    lemma_longest_bounds(days, days.len() as int);
    if days.len() > 0 {
        lemma_run_bounded(days, days.len() - 1);
    }
}

/// A percentage bar width: `n` as a percentage of `total` (0 when there is no total).
pub fn bar(n: usize, total: usize) -> (w: usize)
    requires
        n * 100 <= usize::MAX,
    ensures
        total == 0 ==> w == 0,
        total > 0 ==> w == n * 100 / (total as int),
{
    if total == 0 {
        0
    } else {
        n * 100 / total
    }
}

} // verus!
