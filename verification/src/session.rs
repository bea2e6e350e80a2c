//! The session engine: introductions (ordered, prerequisite-gated, daily-budgeted), due-review
//! selection (comprehension first, production deferred behind same-day comprehension), grading
//! (worst-of multi-mode), production activation, and comprehension-gated level unlocking.
//!
//! Storage-agnostic: it operates on an in-memory [`StudyState`] and a [`ContentView`].

use vstd::prelude::*;
use crate::domain::{Rating, TrackKind, worst_rating, is_worst};
use crate::order::{
    sorted_stable, stable_sort_indices, lemma_sorted_elems, lemma_sorted_contains,
    lemma_sorted_stable_sorted,
};
use crate::scheduler::{
    CardState, CardView, Scheduler, StudyCard, comprehension_mature, fsrs_review_facts,
    spec_mature, REVIEW_SECS_LIMIT, MATURE_STABILITY_DAYS, fresh_card_view, standard_settings,
};
use crate::time::{Timestamp, at_or_before, day_of, spec_day_of, ts_le, ts_lt};

verus! {

/// Static content about one kanji needed for scheduling.
#[derive(Clone, Debug)]
pub struct KanjiMeta {
    pub id: i64,
    /// JLPT level as a number: 5 = N5 (learned first) .. 1 = N1.
    pub level: u8,
    /// Within-level learning order (lower = earlier).
    pub intro_rank: i64,
    /// Other kanji that must be introduced before this one (component prerequisites).
    pub prereq_kanji: Vec<i64>,
}

/// The curriculum the engine schedules over.
pub struct ContentView {
    pub kanji: Vec<KanjiMeta>,
}

/// Study settings. Stability thresholds are whole days; the level-clear fraction is a
/// percentage of the level's kanji.
#[derive(Clone, Copy, Debug, PartialEq, Eq, Structural)]
pub struct Settings {
    pub new_per_day: usize,
    pub daily_review_cap: usize,
    pub mature_stability_days: u32,
    /// Comprehension stability (days) at which the production track activates.
    pub production_gate_days: u32,
    /// Percentage of a level's kanji that must be mature to unlock the next level.
    pub clear_percent: u32,
}

impl Default for Settings {
    fn default() -> (s: Settings)
        ensures
            s == (Settings {
                new_per_day: 10,
                daily_review_cap: 60,
                mature_stability_days: 21,
                production_gate_days: 7,
                clear_percent: 90,
            }),
    {
        Settings {
            new_per_day: 10,
            daily_review_cap: 60,
            mature_stability_days: MATURE_STABILITY_DAYS,
            production_gate_days: 7,
            clear_percent: 90,
        }
    }
}

/// One scheduled track for one kanji: its card plus its identity.
#[derive(Debug)]
pub struct Track {
    pub kanji_id: i64,
    pub kind: TrackKind,
    pub card: StudyCard,
    pub introduced_at: Timestamp,
}

/// The track of `ts` at `i` is the one for `(id, kind)`.
pub open spec fn is_key(ts: Seq<Track>, i: int, id: i64, kind: TrackKind) -> bool {
    0 <= i < ts.len() && ts[i].kanji_id == id && ts[i].kind == kind
}

/// `ts` holds a track for `(id, kind)`.
pub open spec fn has_key(ts: Seq<Track>, id: i64, kind: TrackKind) -> bool {
    exists|i: int| is_key(ts, i, id, kind)
}

/// No two tracks share a kanji and a kind.
pub open spec fn keys_distinct(ts: Seq<Track>) -> bool {
    forall|i: int, j: int|
        0 <= i < ts.len() && 0 <= j < ts.len() && i != j ==> !(#[trigger] ts[i].kanji_id
            == #[trigger] ts[j].kanji_id && ts[i].kind == ts[j].kind)
}

/// The kanji has been introduced: it has a comprehension track.
pub open spec fn introduced(ts: Seq<Track>, id: i64) -> bool {
    has_key(ts, id, TrackKind::Comprehension)
}

/// A track as values: kanji, kind, its card's view, and when it was introduced.
pub open spec fn track_view(t: Track) -> (i64, TrackKind, CardView, Timestamp) {
    (t.kanji_id, t.kind, t.card@, t.introduced_at)
}

/// Study state as values: its tracks by their views, and the unlocked level.
pub type StateView = (Seq<(i64, TrackKind, CardView, Timestamp)>, u8);

/// All mutable per-user study state: one track per (kanji, kind), and the unlocked level.
#[derive(Debug)]
pub struct StudyState {
    tracks: Vec<Track>,
    unlocked_level: u8,
}

impl StudyState {
    /// The tracks, in the order they were first added.
    pub closed spec fn spec_tracks(&self) -> Seq<Track> {
        self.tracks@
    }

    /// Highest unlocked level number (5 = N5 first); 0 = nothing unlocked yet.
    pub closed spec fn spec_level(&self) -> u8 {
        self.unlocked_level
    }

    /// Well-formed: one track per (kanji, kind), every introduction instant representable.
    pub open spec fn wf(&self) -> bool {
        &&& keys_distinct(self.spec_tracks())
        &&& forall|i: int|
            0 <= i < self.spec_tracks().len() ==> (#[trigger] self.spec_tracks()[i]).introduced_at.wf()
    }

    /// No tracks, with `unlocked_level` unlocked.
    pub fn new(unlocked_level: u8) -> (s: StudyState)
        ensures
            s.wf(),
            s.spec_tracks().len() == 0,
            s.spec_level() == unlocked_level,
    {
        StudyState { tracks: Vec::new(), unlocked_level }
    }

    /// The state as values.
    pub open spec fn view_state(&self) -> StateView {
        (self.spec_tracks().map_values(|t: Track| track_view(t)), self.spec_level())
    }

    /// The whole state: its tracks (cards with their full memory state) and the level.
    pub open spec fn spec_state(&self) -> (Seq<Track>, u8) {
        (self.spec_tracks(), self.spec_level())
    }

    /// A copy of the state: the same tracks (cards copied with their memory state) and level.
    pub fn copy(&self) -> (c: StudyState)
        ensures
            c.spec_state() == self.spec_state(),
            c.view_state() == self.view_state(),
            self.wf() ==> c.wf(),
    {
        let mut tracks: Vec<Track> = Vec::new();
        let mut i: usize = 0;
        while i < self.tracks.len()
            invariant
                i <= self.tracks@.len(),
                tracks@ == self.tracks@.take(i as int),
            decreases self.tracks.len() - i,
        {
            let t = &self.tracks[i];
            tracks.push(Track { kanji_id: t.kanji_id, kind: t.kind, card: t.card.copy(), introduced_at: t.introduced_at });
            proof {
                assert(tracks@ =~= self.tracks@.take(i + 1));
            }
            i = i + 1;
        }
        let c = StudyState { tracks, unlocked_level: self.unlocked_level };
        proof {
            assert(tracks@ =~= self.tracks@);
        }
        c
    }

    /// The tracks, in the order they were first added.
    pub fn tracks(&self) -> (v: &Vec<Track>)
        ensures
            v@ == self.spec_tracks(),
    {
        &self.tracks
    }

    /// Highest unlocked level number.
    pub fn unlocked_level(&self) -> (l: u8)
        ensures
            l == self.spec_level(),
    {
        self.unlocked_level
    }

    /// Set the unlocked level; the tracks are untouched.
    pub fn set_unlocked_level(&mut self, level: u8)
        ensures
            final(self).spec_level() == level,
            final(self).spec_tracks() == old(self).spec_tracks(),
    {
        self.unlocked_level = level;
    }

    /// Position of the track for `(id, kind)`, if there is one.
    pub fn find(&self, id: i64, kind: TrackKind) -> (r: Option<usize>)
        ensures
            r matches Some(i) ==> is_key(self.spec_tracks(), i as int, id, kind),
            r is None <==> !has_key(self.spec_tracks(), id, kind),
    {
        let mut i: usize = 0;
        while i < self.tracks.len()
            invariant
                i <= self.tracks@.len(),
                forall|j: int| 0 <= j < i ==> !is_key(self.tracks@, j, id, kind),
            decreases self.tracks.len() - i,
        {
            if self.tracks[i].kanji_id == id && self.tracks[i].kind == kind {
                assert(is_key(self.tracks@, i as int, id, kind));
                return Some(i);
            }
            i = i + 1;
        }
        None
    }

    /// Whether there is a track for `(id, kind)`.
    pub fn contains(&self, id: i64, kind: TrackKind) -> (b: bool)
        ensures
            b == has_key(self.spec_tracks(), id, kind),
    {
        self.find(id, kind).is_some()
    }

    /// The track for `(id, kind)`, if there is one.
    pub fn track(&self, id: i64, kind: TrackKind) -> (r: Option<&Track>)
        ensures
            r is None <==> !has_key(self.spec_tracks(), id, kind),
            r matches Some(t) ==> exists|i: int|
                is_key(self.spec_tracks(), i, id, kind) && self.spec_tracks()[i] == *t,
    {
        match self.find(id, kind) {
            Some(i) => Some(&self.tracks[i]),
            None => None,
        }
    }

    /// Add a track, replacing the one with the same (kanji, kind) if there is one.
    pub fn insert_track(&mut self, t: Track)
        requires
            old(self).wf(),
            t.introduced_at.wf(),
        ensures
            final(self).wf(),
            final(self).spec_level() == old(self).spec_level(),
            has_key(old(self).spec_tracks(), t.kanji_id, t.kind) ==> exists|i: int|
                is_key(old(self).spec_tracks(), i, t.kanji_id, t.kind)
                    && final(self).spec_tracks() == old(self).spec_tracks().update(i, t),
            !has_key(old(self).spec_tracks(), t.kanji_id, t.kind) ==> final(self).spec_tracks()
                == old(self).spec_tracks().push(t),
    {
        match self.find(t.kanji_id, t.kind) {
            Some(i) => {
                self.tracks.set(i, t);
                proof {
                    assert(keys_distinct(self.tracks@));
                }
            },
            None => {
                let ghost pre = self.tracks@;
                self.tracks.push(t);
                proof {
                    assert forall|a: int, b: int|
                        0 <= a < self.tracks@.len() && 0 <= b < self.tracks@.len() && a != b
                        implies !(#[trigger] self.tracks@[a].kanji_id == #[trigger] self.tracks@[b].kanji_id
                        && self.tracks@[a].kind == self.tracks@[b].kind) by {
                        if a == pre.len() {
                            assert(!is_key(pre, b, t.kanji_id, t.kind));
                        } else if b == pre.len() {
                            assert(!is_key(pre, a, t.kanji_id, t.kind));
                        } else {
                            assert(pre[a] == self.tracks@[a] && pre[b] == self.tracks@[b]);
                        }
                    }
                }
            },
        }
    }

    /// Replace the card of the track at `i`.
    fn set_card(&mut self, i: usize, card: StudyCard)
        requires
            old(self).wf(),
            i < old(self).spec_tracks().len(),
        ensures
            final(self).wf(),
            final(self).spec_level() == old(self).spec_level(),
            final(self).spec_tracks() == old(self).spec_tracks().update(
                i as int,
                Track { card, ..old(self).spec_tracks()[i as int] },
            ),
    {
        let t = Track {
            kanji_id: self.tracks[i].kanji_id,
            kind: self.tracks[i].kind,
            card,
            introduced_at: self.tracks[i].introduced_at,
        };
        self.tracks.set(i, t);
        proof {
            assert(keys_distinct(self.tracks@));
        }
    }
}

impl Default for StudyState {
    fn default() -> (s: StudyState)
        ensures
            s.wf(),
            s.spec_tracks().len() == 0,
            s.spec_level() == 0,
    {
        StudyState::new(0)
    }
}


// ---------------------------------------------------------------------------------------------
// What the engine computes, stated over the tracks.
// ---------------------------------------------------------------------------------------------

/// The plain values of a fresh card created at `now`.
pub open spec fn fresh_card(now: Timestamp) -> CardView {
    fresh_card_view(now)
}

/// `t` is a newly created `(id, kind)` track introduced at `now`.
pub open spec fn is_fresh_track(t: Track, id: i64, kind: TrackKind, now: Timestamp) -> bool {
    &&& t.kanji_id == id
    &&& t.kind == kind
    &&& t.card@ == fresh_card(now)
    &&& t.introduced_at == now
}

/// A kanji may be introduced now: it is in the unlocked level, not yet introduced, and all of
/// its prerequisites are introduced.
pub open spec fn eligible(ts: Seq<Track>, level: u8, k: KanjiMeta) -> bool {
    &&& k.level == level
    &&& !introduced(ts, k.id)
    &&& forall|j: int| 0 <= j < k.prereq_kanji@.len() ==> introduced(ts, #[trigger] k.prereq_kanji@[j])
}

/// Positions, among the first `n` kanji of the content, of the eligible ones (content order).
pub open spec fn eligible_positions(kanji: Seq<KanjiMeta>, ts: Seq<Track>, level: u8, n: int) -> Seq<usize>
    decreases n,
{
    if n <= 0 {
        Seq::empty()
    } else {
        let r = eligible_positions(kanji, ts, level, n - 1);
        if eligible(ts, level, kanji[n - 1]) {
            r.push((n - 1) as usize)
        } else {
            r
        }
    }
}

/// The learning-order key of each kanji.
pub open spec fn rank_keys(kanji: Seq<KanjiMeta>) -> Seq<(i128, u64)> {
    Seq::new(kanji.len(), |i: int| (kanji[i].intro_rank as i128, 0u64))
}

/// The kanji that may be introduced now, ordered by `intro_rank` (ties in content order).
pub open spec fn introducible_ids(kanji: Seq<KanjiMeta>, ts: Seq<Track>, level: u8) -> Seq<i64> {
    sorted_stable(eligible_positions(kanji, ts, level, kanji.len() as int), rank_keys(kanji)).map_values(
        |p: usize| kanji[p as int].id,
    )
}

/// The kanji `id` is in the content. Tracks of other ids (left from an earlier content) are
/// kept in the state but quarantined: never counted, never scheduled.
pub open spec fn in_content(kanji: Seq<KanjiMeta>, id: i64) -> bool {
    exists|i: int| 0 <= i < kanji.len() && (#[trigger] kanji[i]).id == id
}

/// Comprehension tracks of content kanji among the first `n` introduced on `day`.
pub open spec fn count_introduced_on(kanji: Seq<KanjiMeta>, ts: Seq<Track>, day: int, n: int) -> nat
    decreases n,
{
    if n <= 0 {
        0
    } else {
        count_introduced_on(kanji, ts, day, n - 1) + if ts[n - 1].kind == TrackKind::Comprehension
            && spec_day_of(ts[n - 1].introduced_at) == day && in_content(kanji, ts[n - 1].kanji_id) {
            1nat
        } else {
            0nat
        }
    }
}

/// Content kanji introduced on the UTC day of `now`.
pub open spec fn introduced_today_count(kanji: Seq<KanjiMeta>, ts: Seq<Track>, now: Timestamp) -> nat {
    count_introduced_on(kanji, ts, spec_day_of(now), ts.len() as int)
}

/// How many more kanji the daily budget allows today.
pub open spec fn budget_left(settings: Settings, kanji: Seq<KanjiMeta>, ts: Seq<Track>, now: Timestamp) -> int {
    if settings.new_per_day >= introduced_today_count(kanji, ts, now) {
        settings.new_per_day - introduced_today_count(kanji, ts, now)
    } else {
        0
    }
}

/// How many kanji an introduction at `now` takes: the budget left, or fewer if fewer are ready.
pub open spec fn spec_new_remaining(
    kanji: Seq<KanjiMeta>,
    settings: Settings,
    ts: Seq<Track>,
    level: u8,
    now: Timestamp,
) -> int {
    let n = introducible_ids(kanji, ts, level).len() as int;
    if budget_left(settings, kanji, ts, now) < n {
        budget_left(settings, kanji, ts, now)
    } else {
        n
    }
}

/// Every introduced kanji of the content has all of its prerequisites introduced.
pub open spec fn prereq_closed(kanji: Seq<KanjiMeta>, ts: Seq<Track>) -> bool {
    forall|i: int, j: int|
        0 <= i < kanji.len() && introduced(ts, kanji[i].id) && 0 <= j
            < kanji[i].prereq_kanji@.len() ==> introduced(ts, #[trigger] kanji[i].prereq_kanji@[j])
}

/// No two kanji of the content share an id.
pub open spec fn content_ids_distinct(kanji: Seq<KanjiMeta>) -> bool {
    forall|i: int, j: int|
        0 <= i < kanji.len() && 0 <= j < kanji.len() && i != j ==> #[trigger] kanji[i].id
            != #[trigger] kanji[j].id
}

/// Every production track belongs to a kanji that has a comprehension track.
pub open spec fn production_follows_comprehension(ts: Seq<Track>) -> bool {
    forall|i: int|
        0 <= i < ts.len() && (#[trigger] ts[i]).kind == TrackKind::Production ==> introduced(
            ts,
            ts[i].kanji_id,
        )
}

/// Positions, among the first `n` tracks, of comprehension tracks of content kanji due at
/// `now`.
pub open spec fn due_comprehension_positions(kanji: Seq<KanjiMeta>, ts: Seq<Track>, now: Timestamp, n: int) -> Seq<usize>
    decreases n,
{
    if n <= 0 {
        Seq::empty()
    } else {
        let r = due_comprehension_positions(kanji, ts, now, n - 1);
        if ts[n - 1].kind == TrackKind::Comprehension && ts_le(ts[n - 1].card@.due, now)
            && in_content(kanji, ts[n - 1].kanji_id) {
            r.push((n - 1) as usize)
        } else {
            r
        }
    }
}

/// The kanji's comprehension track falls due on the UTC day of `now` or earlier.
pub open spec fn comprehension_due_today(ts: Seq<Track>, id: i64, now: Timestamp) -> bool {
    exists|i: int|
        is_key(ts, i, id, TrackKind::Comprehension) && spec_day_of(ts[i].card@.due) <= spec_day_of(now)
}

/// Positions, among the first `n` tracks, of production tracks of content kanji due at `now`
/// whose comprehension track does not fall due the same day (anti-priming: production waits
/// at least a day).
pub open spec fn due_production_positions(kanji: Seq<KanjiMeta>, ts: Seq<Track>, now: Timestamp, n: int) -> Seq<usize>
    decreases n,
{
    if n <= 0 {
        Seq::empty()
    } else {
        let r = due_production_positions(kanji, ts, now, n - 1);
        if ts[n - 1].kind == TrackKind::Production && ts_le(ts[n - 1].card@.due, now)
            && in_content(kanji, ts[n - 1].kanji_id) && !comprehension_due_today(ts, ts[n - 1].kanji_id, now) {
            r.push((n - 1) as usize)
        } else {
            r
        }
    }
}

/// The due-date key of each track.
pub open spec fn due_keys(ts: Seq<Track>) -> Seq<(i128, u64)> {
    Seq::new(ts.len(), |i: int| (ts[i].card@.due.secs as i128, ts[i].card@.due.nanos as u64))
}

/// All due tracks of content kanji in review order: comprehension by due date, then
/// production by due date.
pub open spec fn due_queue(kanji: Seq<KanjiMeta>, ts: Seq<Track>, now: Timestamp) -> Seq<usize> {
    sorted_stable(due_comprehension_positions(kanji, ts, now, ts.len() as int), due_keys(ts))
        + sorted_stable(due_production_positions(kanji, ts, now, ts.len() as int), due_keys(ts))
}

/// The due items handed out at `now`: the review order, capped.
pub open spec fn spec_due_items(kanji: Seq<KanjiMeta>, ts: Seq<Track>, now: Timestamp, cap: usize) -> Seq<(i64, TrackKind)> {
    let q = due_queue(kanji, ts, now);
    let n = if (cap as int) < q.len() {
        cap as int
    } else {
        q.len() as int
    };
    q.take(n).map_values(|p: usize| (ts[p as int].kanji_id, ts[p as int].kind))
}

/// Kanji of `level` among the first `n` of the content.
pub open spec fn level_size(kanji: Seq<KanjiMeta>, level: u8, n: int) -> nat
    decreases n,
{
    if n <= 0 {
        0
    } else {
        level_size(kanji, level, n - 1) + if kanji[n - 1].level == level {
            1nat
        } else {
            0nat
        }
    }
}

/// The kanji's comprehension track exists and is mature.
pub open spec fn mature_comprehension(ts: Seq<Track>, id: i64, mature_days: u32) -> bool {
    exists|i: int| is_key(ts, i, id, TrackKind::Comprehension) && spec_mature(ts[i].card@, mature_days)
}

/// Kanji of `level` among the first `n` of the content with a mature comprehension track.
pub open spec fn level_mature_count(
    kanji: Seq<KanjiMeta>,
    ts: Seq<Track>,
    level: u8,
    mature_days: u32,
    n: int,
) -> nat
    decreases n,
{
    if n <= 0 {
        0
    } else {
        level_mature_count(kanji, ts, level, mature_days, n - 1) + if kanji[n - 1].level == level
            && mature_comprehension(ts, kanji[n - 1].id, mature_days) {
            1nat
        } else {
            0nat
        }
    }
}

/// At least `clear_percent` percent of the level's kanji (and at least one) are mature.
pub open spec fn level_cleared(kanji: Seq<KanjiMeta>, ts: Seq<Track>, level: u8, settings: Settings) -> bool {
    let size = level_size(kanji, level, kanji.len() as int);
    let mature = level_mature_count(kanji, ts, level, settings.mature_stability_days, kanji.len() as int);
    size > 0 && mature * 100 >= settings.clear_percent * size
}

/// The unlocked level after checking for a clear: the next (lower-numbered) level if the
/// current one is cleared and is not the last.
pub open spec fn unlock_step(kanji: Seq<KanjiMeta>, ts: Seq<Track>, level: u8, settings: Settings) -> u8 {
    if level > 1 && level_cleared(kanji, ts, level, settings) {
        (level - 1) as u8
    } else {
        level
    }
}

/// The tracks with the card of the track at `i` replaced by `c`.
pub open spec fn with_card(ts: Seq<Track>, i: int, c: StudyCard) -> Seq<Track> {
    ts.update(i, Track { card: c, ..ts[i] })
}

/// A graded comprehension card opens the production track: none exists yet, the new
/// stability reaches the production gate, and there have been at least two reviews.
pub open spec fn activates_production(ts: Seq<Track>, id: i64, c: CardView, settings: Settings) -> bool {
    &&& !has_key(ts, id, TrackKind::Production)
    &&& c.stability_days >= settings.production_gate_days
    &&& c.reps >= 2
}

/// The outcome of grading `(id, kind)` at `now` with `ratings`: the track at `i` got card `c`
/// from one FSRS review under the worst rating `w`; a graded comprehension card that reaches
/// the production gate adds a fresh production track; a graded comprehension track is followed
/// by the level-clear check.
pub open spec fn graded(
    kanji: Seq<KanjiMeta>,
    settings: Settings,
    old_ts: Seq<Track>,
    old_level: u8,
    fin: Seq<Track>,
    fin_level: u8,
    id: i64,
    kind: TrackKind,
    ratings: Seq<Rating>,
    now: Timestamp,
    i: int,
    c: StudyCard,
    w: Rating,
) -> bool {
    let reviewed = with_card(old_ts, i, c);
    &&& is_key(old_ts, i, id, kind)
    &&& is_worst(ratings, w)
    &&& fsrs_review_facts(old_ts[i].card@, w, now, c@)
    &&& if kind == TrackKind::Comprehension && activates_production(reviewed, id, c@, settings) {
        &&& fin.len() == reviewed.len() + 1
        &&& fin.subrange(0, reviewed.len() as int) == reviewed
        &&& is_fresh_track(fin.last(), id, TrackKind::Production, now)
    } else {
        fin == reviewed
    }
    &&& kind == TrackKind::Comprehension ==> fin_level == unlock_step(kanji, fin, old_level, settings)
    &&& kind == TrackKind::Production ==> fin_level == old_level
}

/// What grading does: nothing without ratings or without the track; otherwise the track is
/// graded with the worst rating (see `graded`).
pub open spec fn grade_result(
    kanji: Seq<KanjiMeta>,
    settings: Settings,
    old_ts: Seq<Track>,
    old_level: u8,
    fin: Seq<Track>,
    fin_level: u8,
    id: i64,
    kind: TrackKind,
    ratings: Seq<Rating>,
    now: Timestamp,
) -> bool {
    &&& (ratings.len() == 0 || !has_key(old_ts, id, kind)) ==> (fin == old_ts && fin_level == old_level)
    &&& (ratings.len() > 0 && has_key(old_ts, id, kind)) ==> exists|i: int, c: StudyCard, w: Rating|
        #[trigger] graded(kanji, settings, old_ts, old_level, fin, fin_level, id, kind, ratings, now, i, c, w)
}

// ---------------------------------------------------------------------------------------------
// Lemmas.
// ---------------------------------------------------------------------------------------------

proof fn lemma_eligible_positions(kanji: Seq<KanjiMeta>, ts: Seq<Track>, level: u8, n: int, t: int)
    requires
        0 <= n <= kanji.len() <= usize::MAX,
        0 <= t < eligible_positions(kanji, ts, level, n).len(),
    ensures
        eligible_positions(kanji, ts, level, n)[t] < n,
        eligible(ts, level, kanji[eligible_positions(kanji, ts, level, n)[t] as int]),
    decreases n,
{
    let r = eligible_positions(kanji, ts, level, n - 1);
    if t < r.len() {
        lemma_eligible_positions(kanji, ts, level, n - 1, t);
    }
}

/// Every kanji offered for introduction is eligible: in the unlocked level, new, with all of
/// its prerequisites introduced.
pub proof fn lemma_introducible_eligible(kanji: Seq<KanjiMeta>, ts: Seq<Track>, level: u8, t: int)
    requires
        kanji.len() <= usize::MAX,
        0 <= t < introducible_ids(kanji, ts, level).len(),
    ensures
        exists|p: int|
            0 <= p < kanji.len() && kanji[p].id == introducible_ids(kanji, ts, level)[t] && eligible(
                ts,
                level,
                kanji[p],
            ),
{
    let pos = eligible_positions(kanji, ts, level, kanji.len() as int);
    let sorted = sorted_stable(pos, rank_keys(kanji));
    lemma_sorted_elems(pos, rank_keys(kanji));
    lemma_sorted_contains(pos, rank_keys(kanji), t);
    let w = choose|w: int| 0 <= w < pos.len() && pos[w] == sorted[t];
    lemma_eligible_positions(kanji, ts, level, kanji.len() as int, w);
    assert(kanji[sorted[t] as int].id == introducible_ids(kanji, ts, level)[t]);
}

proof fn lemma_due_comprehension_positions(kanji: Seq<KanjiMeta>, ts: Seq<Track>, now: Timestamp, n: int, t: int)
    requires
        0 <= n <= ts.len() <= usize::MAX,
        0 <= t < due_comprehension_positions(kanji, ts, now, n).len(),
    ensures
        due_comprehension_positions(kanji, ts, now, n)[t] < n,
        ts[due_comprehension_positions(kanji, ts, now, n)[t] as int].kind == TrackKind::Comprehension,
        ts_le(ts[due_comprehension_positions(kanji, ts, now, n)[t] as int].card@.due, now),
        in_content(kanji, ts[due_comprehension_positions(kanji, ts, now, n)[t] as int].kanji_id),
    decreases n,
{
    let r = due_comprehension_positions(kanji, ts, now, n - 1);
    if t < r.len() {
        lemma_due_comprehension_positions(kanji, ts, now, n - 1, t);
    }
}

proof fn lemma_count_prefix(kanji: Seq<KanjiMeta>, a: Seq<Track>, b: Seq<Track>, day: int, n: int)
    requires
        0 <= n <= a.len(),
        n <= b.len(),
        a.subrange(0, n) == b.subrange(0, n),
    ensures
        count_introduced_on(kanji, a, day, n) == count_introduced_on(kanji, b, day, n),
    decreases n,
{
    if n > 0 {
        assert(a.subrange(0, n - 1) == a.subrange(0, n).subrange(0, n - 1));
        assert(b.subrange(0, n - 1) == b.subrange(0, n).subrange(0, n - 1));
        assert(a[n - 1] == a.subrange(0, n)[n - 1]);
        assert(b[n - 1] == b.subrange(0, n)[n - 1]);
        lemma_count_prefix(kanji, a, b, day, n - 1);
    }
}

proof fn lemma_count_appended(kanji: Seq<KanjiMeta>, fin: Seq<Track>, start: int, day: int, n: int)
    requires
        0 <= start <= n <= fin.len(),
        forall|k: int|
            start <= k < fin.len() ==> (#[trigger] fin[k]).kind == TrackKind::Comprehension
                && spec_day_of(fin[k].introduced_at) == day && in_content(kanji, fin[k].kanji_id),
    ensures
        count_introduced_on(kanji, fin, day, n) == count_introduced_on(kanji, fin, day, start) + (n - start),
    decreases n,
{
    if n > start {
        lemma_count_appended(kanji, fin, start, day, n - 1);
        assert(fin[n - 1].kind == TrackKind::Comprehension);
    }
}

proof fn lemma_due_positions_len(kanji: Seq<KanjiMeta>, ts: Seq<Track>, now: Timestamp, n: int)
    requires
        0 <= n <= ts.len(),
    ensures
        due_comprehension_positions(kanji, ts, now, n).len() + due_production_positions(kanji, ts, now, n).len() <= n,
    decreases n,
{
    if n > 0 {
        lemma_due_positions_len(kanji, ts, now, n - 1);
    }
}

proof fn lemma_due_production_positions(kanji: Seq<KanjiMeta>, ts: Seq<Track>, now: Timestamp, n: int, t: int)
    requires
        0 <= n <= ts.len() <= usize::MAX,
        0 <= t < due_production_positions(kanji, ts, now, n).len(),
    ensures
        due_production_positions(kanji, ts, now, n)[t] < n,
        ts[due_production_positions(kanji, ts, now, n)[t] as int].kind == TrackKind::Production,
        ts_le(ts[due_production_positions(kanji, ts, now, n)[t] as int].card@.due, now),
        in_content(kanji, ts[due_production_positions(kanji, ts, now, n)[t] as int].kanji_id),
        !comprehension_due_today(ts, ts[due_production_positions(kanji, ts, now, n)[t] as int].kanji_id, now),
    decreases n,
{
    let r = due_production_positions(kanji, ts, now, n - 1);
    if t < r.len() {
        lemma_due_production_positions(kanji, ts, now, n - 1, t);
    }
}

/// A day number bounds the day of an instant exactly when the instant comes before the
/// start of the following day.
proof fn lemma_day_at_most(s: int, d: int)
    ensures
        (s / 86400 <= d) <==> s < (d + 1) * 86400,
{
    let q = s / 86400;
    let r = s % 86400;
    assert(s == q * 86400 + r && 0 <= r < 86400) by (nonlinear_arith)
        requires
            q == s / 86400,
            r == s % 86400,
    ;
    if q <= d {
        assert(q * 86400 <= d * 86400) by (nonlinear_arith) requires q <= d;
    } else {
        assert((d + 1) * 86400 <= q * 86400) by (nonlinear_arith) requires d + 1 <= q;
    }
}


// ---------------------------------------------------------------------------------------------
// The engine.
// ---------------------------------------------------------------------------------------------

/// The session engine over one curriculum, with the user's settings.
pub struct Engine<'a> {
    pub content: &'a ContentView,
    pub settings: Settings,
    pub scheduler: Scheduler,
}

impl<'a> Engine<'a> {
    /// An engine over `content` with `settings` and the standard scheduler.
    pub fn new(content: &'a ContentView, settings: Settings) -> (e: Engine<'a>)
        ensures
            e.content == content,
            e.settings == settings,
            e.scheduler@ == standard_settings(),
    {
        Engine { content, settings, scheduler: Scheduler::new() }
    }

    fn introduced(&self, state: &StudyState, id: i64) -> (b: bool)
        ensures
            b == introduced(state.spec_tracks(), id),
    {
        state.contains(id, TrackKind::Comprehension)
    }

    fn is_eligible(&self, state: &StudyState, k: &KanjiMeta) -> (b: bool)
        ensures
            b == eligible(state.spec_tracks(), state.spec_level(), *k),
    {
        if k.level != state.unlocked_level() || self.introduced(state, k.id) {
            return false;
        }
        let mut j: usize = 0;
        while j < k.prereq_kanji.len()
            invariant
                j <= k.prereq_kanji@.len(),
                forall|q: int| 0 <= q < j ==> introduced(state.spec_tracks(), #[trigger] k.prereq_kanji@[q]),
            decreases k.prereq_kanji.len() - j,
        {
            if !self.introduced(state, k.prereq_kanji[j]) {
                return false;
            }
            j = j + 1;
        }
        true
    }

    /// Kanji eligible to introduce: in the unlocked level, not yet introduced, all
    /// prerequisites introduced; ordered by intro_rank.
    fn introducible(&self, state: &StudyState) -> (v: Vec<i64>)
        ensures
            v@ == introducible_ids(self.content.kanji@, state.spec_tracks(), state.spec_level()),
    {
        let kanji = &self.content.kanji;
        let ghost ts = state.spec_tracks();
        let ghost level = state.spec_level();
        let mut pos: Vec<usize> = Vec::new();
        let mut i: usize = 0;
        while i < kanji.len()
            invariant
                i <= kanji@.len(),
                ts == state.spec_tracks(),
                level == state.spec_level(),
                pos@ == eligible_positions(kanji@, ts, level, i as int),
            decreases kanji.len() - i,
        {
            if self.is_eligible(state, &kanji[i]) {
                pos.push(i);
            }
            i = i + 1;
        }
        let mut keys: Vec<(i128, u64)> = Vec::new();
        let mut i: usize = 0;
        while i < kanji.len()
            invariant
                i <= kanji@.len(),
                keys@ == rank_keys(kanji@).subrange(0, i as int),
            decreases kanji.len() - i,
        {
            keys.push((kanji[i].intro_rank as i128, 0u64));
            proof {
                assert(keys@ =~= rank_keys(kanji@).subrange(0, i + 1));
            }
            i = i + 1;
        }
        proof {
            assert(keys@ =~= rank_keys(kanji@));
            assert forall|t: int| 0 <= t < pos@.len() implies (#[trigger] pos@[t]) < keys@.len() by {
                lemma_eligible_positions(kanji@, ts, level, kanji@.len() as int, t);
            }
        }
        let sorted = stable_sort_indices(&pos, &keys);
        proof {
            lemma_sorted_elems(pos@, keys@);
        }
        let mut out: Vec<i64> = Vec::new();
        let mut j: usize = 0;
        while j < sorted.len()
            invariant
                j <= sorted@.len(),
                sorted@ == sorted_stable(pos@, keys@),
                pos@ == eligible_positions(kanji@, ts, level, kanji@.len() as int),
                sorted@.len() == pos@.len(),
                kanji@.len() <= usize::MAX,
                out@ == sorted@.subrange(0, j as int).map_values(|p: usize| kanji@[p as int].id),
            decreases sorted.len() - j,
        {
            proof {
                lemma_sorted_contains(pos@, keys@, j as int);
                let w = choose|w: int| 0 <= w < pos@.len() && pos@[w] == sorted@[j as int];
                lemma_eligible_positions(kanji@, ts, level, kanji@.len() as int, w);
            }
            out.push(kanji[sorted[j]].id);
            proof {
                assert(out@ =~= sorted@.subrange(0, j + 1).map_values(|p: usize| kanji@[p as int].id));
            }
            j = j + 1;
        }
        proof {
            assert(sorted@.subrange(0, sorted@.len() as int) =~= sorted@);
        }
        out
    }

    /// Whether `id` is the id of a content kanji.
    pub fn is_content_id(&self, id: i64) -> (b: bool)
        ensures
            b == in_content(self.content.kanji@, id),
    {
        let kanji = &self.content.kanji;
        let mut i: usize = 0;
        while i < kanji.len()
            invariant
                i <= kanji@.len(),
                kanji@ == self.content.kanji@,
                forall|q: int| 0 <= q < i ==> (#[trigger] kanji@[q]).id != id,
            decreases kanji.len() - i,
        {
            if kanji[i].id == id {
                assert(self.content.kanji@[i as int].id == id);
                return true;
            }
            i = i + 1;
        }
        false
    }

    /// Content kanji introduced on the UTC day of `now`.
    fn introduced_today(&self, state: &StudyState, now: Timestamp) -> (n: usize)
        requires
            state.wf(),
            now.wf(),
        ensures
            n == introduced_today_count(self.content.kanji@, state.spec_tracks(), now),
    {
        let today = day_of(now);
        let tracks = state.tracks();
        let mut n: usize = 0;
        let mut i: usize = 0;
        while i < tracks.len()
            invariant
                i <= tracks@.len(),
                tracks@ == state.spec_tracks(),
                state.wf(),
                today == spec_day_of(now),
                n == count_introduced_on(self.content.kanji@, tracks@, today as int, i as int),
                n <= i,
            decreases tracks.len() - i,
        {
            let t = &tracks[i];
            assert(tracks@[i as int].introduced_at.wf());
            if t.kind == TrackKind::Comprehension && day_of(t.introduced_at) == today
                && self.is_content_id(t.kanji_id) {
                n = n + 1;
            }
            i = i + 1;
        }
        n
    }

    /// How many new kanji an introduction now would take: the daily budget left, or fewer if
    /// fewer kanji are ready.
    pub fn new_remaining_today(&self, state: &StudyState, now: Timestamp) -> (n: usize)
        requires
            state.wf(),
            now.wf(),
        ensures
            n == spec_new_remaining(
                self.content.kanji@,
                self.settings,
                state.spec_tracks(),
                state.spec_level(),
                now,
            ),
    {
        let count = self.introduced_today(state, now);
        let budget = if self.settings.new_per_day >= count {
            self.settings.new_per_day - count
        } else {
            0
        };
        let cands = self.introducible(state);
        if budget < cands.len() {
            budget
        } else {
            cands.len()
        }
    }

    /// Introduce up to the remaining daily budget of new kanji, in learning order; returns the
    /// introduced ids. Each gets a fresh comprehension track introduced at `now`.
    pub fn introduce_new(&self, state: &mut StudyState, now: Timestamp) -> (ids: Vec<i64>)
        requires
            old(state).wf(),
            now.wf(),
        ensures
            final(state).wf(),
            final(state).spec_level() == old(state).spec_level(),
            ids@.len() == spec_new_remaining(
                self.content.kanji@,
                self.settings,
                old(state).spec_tracks(),
                old(state).spec_level(),
                now,
            ),
            ids@ == introducible_ids(
                self.content.kanji@,
                old(state).spec_tracks(),
                old(state).spec_level(),
            ).take(ids@.len() as int),
            // existing tracks are kept as they were
            final(state).spec_tracks().len() >= old(state).spec_tracks().len(),
            final(state).spec_tracks().subrange(0, old(state).spec_tracks().len() as int)
                == old(state).spec_tracks(),
            // the added tracks are fresh comprehension tracks of introduced ids
            forall|k: int|
                old(state).spec_tracks().len() <= k < final(state).spec_tracks().len() ==> {
                    let t = #[trigger] final(state).spec_tracks()[k];
                    &&& ids@.contains(t.kanji_id)
                    &&& is_fresh_track(t, t.kanji_id, TrackKind::Comprehension, now)
                },
            forall|j: int| 0 <= j < ids@.len() ==> introduced(final(state).spec_tracks(), #[trigger] ids@[j]),
            production_follows_comprehension(old(state).spec_tracks())
                ==> production_follows_comprehension(final(state).spec_tracks()),
            content_ids_distinct(self.content.kanji@) && prereq_closed(
                self.content.kanji@,
                old(state).spec_tracks(),
            ) ==> prereq_closed(self.content.kanji@, final(state).spec_tracks()),
            // the daily budget: today's introductions grow by the added tracks, at most `ids`
            final(state).spec_tracks().len() <= old(state).spec_tracks().len() + ids@.len(),
            introduced_today_count(self.content.kanji@, final(state).spec_tracks(), now)
                == introduced_today_count(self.content.kanji@, old(state).spec_tracks(), now) + (
                final(state).spec_tracks().len() - old(state).spec_tracks().len()),
    {
        let ghost old_ts = state.spec_tracks();
        let ghost kanji = self.content.kanji@;
        let ghost level = state.spec_level();
        let count = self.introduced_today(state, now);
        let budget = if self.settings.new_per_day >= count {
            self.settings.new_per_day - count
        } else {
            0
        };
        let cands = self.introducible(state);
        let n = if budget < cands.len() {
            budget
        } else {
            cands.len()
        };
        proof {
            assert(kanji.len() == self.content.kanji.len());
            assert forall|t: int| 0 <= t < cands@.len() implies !introduced(old_ts, #[trigger] cands@[t])
                && exists|p: int|
                0 <= p < kanji.len() && kanji[p].id == cands@[t] && eligible(old_ts, level, kanji[p]) by {
                lemma_introducible_eligible(kanji, old_ts, level, t);
            }
            assert forall|t: int| 0 <= t < cands@.len() implies in_content(kanji, #[trigger] cands@[t]) by {
                let p = choose|p: int|
                    0 <= p < kanji.len() && kanji[p].id == cands@[t] && eligible(old_ts, level, kanji[p]);
                assert(kanji[p].id == cands@[t]);
            }
        }
        let mut ids: Vec<i64> = Vec::new();
        let mut j: usize = 0;
        while j < n
            invariant
                state.wf(),
                state.spec_level() == level,
                j <= n <= cands@.len(),
                now.wf(),
                ids@ == cands@.subrange(0, j as int),
                forall|t: int| 0 <= t < cands@.len() ==> !introduced(old_ts, #[trigger] cands@[t]),
                forall|t: int| 0 <= t < cands@.len() ==> in_content(kanji, #[trigger] cands@[t]),
                kanji == self.content.kanji@,
                state.spec_tracks().len() >= old_ts.len(),
                state.spec_tracks().len() <= old_ts.len() + j,
                state.spec_tracks().subrange(0, old_ts.len() as int) == old_ts,
                forall|k: int|
                    old_ts.len() <= k < state.spec_tracks().len() ==> {
                        let t = #[trigger] state.spec_tracks()[k];
                        &&& ids@.contains(t.kanji_id)
                        &&& is_fresh_track(t, t.kanji_id, TrackKind::Comprehension, now)
                    },
                forall|q: int| 0 <= q < j ==> introduced(state.spec_tracks(), #[trigger] ids@[q]),
            decreases n - j,
        {
            let id = cands[j];
            let ghost before = state.spec_tracks();
            let ghost ids_before = ids@;
            ids.push(id);
            let t = Track {
                kanji_id: id,
                kind: TrackKind::Comprehension,
                card: Scheduler::new_card(now),
                introduced_at: now,
            };
            state.insert_track(t);
            proof {
                let after = state.spec_tracks();
                assert(ids@ =~= cands@.subrange(0, j + 1));
                assert(!introduced(old_ts, id));
                if has_key(before, id, TrackKind::Comprehension) {
                    let i = choose|i: int|
                        is_key(before, i, id, TrackKind::Comprehension) && after == before.update(i, t);
                    if i < old_ts.len() {
                        assert(before[i] == old_ts[i]);
                        assert(is_key(old_ts, i, id, TrackKind::Comprehension));
                    }
                    assert(i >= old_ts.len());
                    assert(is_key(after, i, id, TrackKind::Comprehension));
                    assert(after.subrange(0, old_ts.len() as int) =~= before.subrange(0, old_ts.len() as int));
                } else {
                    assert(after == before.push(t));
                    assert(is_key(after, before.len() as int, id, TrackKind::Comprehension));
                    assert(after.subrange(0, old_ts.len() as int) =~= before.subrange(0, old_ts.len() as int));
                }
                assert forall|k: int| old_ts.len() <= k < after.len() implies {
                    let u = #[trigger] after[k];
                    &&& ids@.contains(u.kanji_id)
                    &&& is_fresh_track(u, u.kanji_id, TrackKind::Comprehension, now)
                } by {
                    if after[k] == t {
                        assert(ids@[j as int] == id);
                    } else {
                        assert(after[k] == before[k]);
                        let w = choose|w: int| 0 <= w < ids_before.len() && ids_before[w] == before[k].kanji_id;
                        assert(ids@[w] == ids_before[w]);
                    }
                }
                assert forall|q: int| 0 <= q < j + 1 implies introduced(after, #[trigger] ids@[q]) by {
                    if q < j {
                        assert(ids@[q] == ids_before[q]);
                        assert(introduced(before, ids_before[q]));
                        let w = choose|w: int| is_key(before, w, ids_before[q], TrackKind::Comprehension);
                        if after[w] == before[w] {
                            assert(is_key(after, w, ids_before[q], TrackKind::Comprehension));
                        } else {
                            assert(after[w] == t);
                            assert(is_key(after, w, ids_before[q], TrackKind::Comprehension));
                        }
                    }
                }
            }
            j = j + 1;
        }
        proof {
            let fin = state.spec_tracks();
            let day = spec_day_of(now);
            assert(old_ts.subrange(0, old_ts.len() as int) =~= old_ts);
            lemma_count_prefix(kanji, fin, old_ts, day, old_ts.len() as int);
            assert forall|k: int| old_ts.len() <= k < fin.len() implies (#[trigger] fin[k]).kind
                == TrackKind::Comprehension && spec_day_of(fin[k].introduced_at) == day && in_content(
                kanji,
                fin[k].kanji_id,
            ) by {
                let tt = choose|tt: int| 0 <= tt < ids@.len() && ids@[tt] == fin[k].kanji_id;
                assert(cands@[tt] == ids@[tt]);
            }
            lemma_count_appended(kanji, fin, old_ts.len() as int, day, fin.len() as int);
            // existing keys stay present
            assert forall|x: i64, kd: TrackKind| has_key(old_ts, x, kd) implies has_key(fin, x, kd) by {
                let w = choose|w: int| is_key(old_ts, w, x, kd);
                assert(fin[w] == fin.subrange(0, old_ts.len() as int)[w]);
                assert(is_key(fin, w, x, kd));
            }
            // a track of the final state is old or a fresh comprehension track of an id in ids
            if production_follows_comprehension(old_ts) {
                assert forall|i: int|
                    0 <= i < fin.len() && (#[trigger] fin[i]).kind == TrackKind::Production
                    implies introduced(fin, fin[i].kanji_id) by {
                    assert(i < old_ts.len());
                    assert(fin[i] == fin.subrange(0, old_ts.len() as int)[i]);
                    assert(introduced(old_ts, old_ts[i].kanji_id));
                }
            }
            if content_ids_distinct(kanji) && prereq_closed(kanji, old_ts) {
                assert forall|i: int, q: int|
                    0 <= i < kanji.len() && introduced(fin, kanji[i].id) && 0 <= q
                        < kanji[i].prereq_kanji@.len() implies introduced(fin, #[trigger] kanji[i].prereq_kanji@[q]) by {
                    if introduced(old_ts, kanji[i].id) {
                        assert(introduced(old_ts, kanji[i].prereq_kanji@[q]));
                    } else {
                        let w = choose|w: int| is_key(fin, w, kanji[i].id, TrackKind::Comprehension);
                        if w < old_ts.len() {
                            assert(fin[w] == fin.subrange(0, old_ts.len() as int)[w]);
                            assert(is_key(old_ts, w, kanji[i].id, TrackKind::Comprehension));
                        }
                        assert(ids@.contains(kanji[i].id));
                        let tt = choose|tt: int| 0 <= tt < ids@.len() && ids@[tt] == kanji[i].id;
                        assert(cands@[tt] == kanji[i].id);
                        let p = choose|p: int|
                            0 <= p < kanji.len() && kanji[p].id == cands@[tt] && eligible(old_ts, level, kanji[p]);
                        assert(p == i);
                        assert(introduced(old_ts, kanji[i].prereq_kanji@[q]));
                    }
                }
            }
        }
        ids
    }

    /// Whether the kanji's comprehension track falls due on the UTC day of `now` or earlier.
    fn comprehension_due_today(&self, tracks: &Vec<Track>, id: i64, now: Timestamp) -> (b: bool)
        requires
            now.wf(),
        ensures
            b == comprehension_due_today(tracks@, id, now),
    {
        let next_day: i128 = (day_of(now) as i128 + 1) * 86_400;
        let mut i: usize = 0;
        while i < tracks.len()
            invariant
                i <= tracks@.len(),
                next_day == (spec_day_of(now) + 1) * 86400,
                forall|q: int|
                    0 <= q < i ==> !(is_key(tracks@, q, id, TrackKind::Comprehension) && spec_day_of(
                        tracks@[q].card@.due,
                    ) <= spec_day_of(now)),
            decreases tracks.len() - i,
        {
            let t = &tracks[i];
            proof {
                lemma_day_at_most(tracks@[i as int].card@.due.secs as int, spec_day_of(now));
            }
            if t.kanji_id == id && t.kind == TrackKind::Comprehension && (t.card.due().secs as i128) < next_day {
                assert(is_key(tracks@, i as int, id, TrackKind::Comprehension));
                return true;
            }
            i = i + 1;
        }
        false
    }

    /// Due items for review at `now`: comprehension first (earliest due first), then production,
    /// excluding any production track whose comprehension falls due the same day (anti-priming).
    /// Tracks of kanji outside the content are left out. Capped at the daily review cap.
    pub fn due_items(&self, state: &StudyState, now: Timestamp) -> (items: Vec<(i64, TrackKind)>)
        requires
            state.wf(),
            now.wf(),
        ensures
            items@ == spec_due_items(self.content.kanji@, state.spec_tracks(), now, self.settings.daily_review_cap),
    {
        let tracks = state.tracks();
        let ghost ts = tracks@;
        let ghost kanji = self.content.kanji@;
        let mut comp: Vec<usize> = Vec::new();
        let mut prod: Vec<usize> = Vec::new();
        let mut keys: Vec<(i128, u64)> = Vec::new();
        let mut i: usize = 0;
        while i < tracks.len()
            invariant
                i <= ts.len(),
                ts == tracks@,
                keys_distinct(ts),
                now.wf(),
                kanji == self.content.kanji@,
                comp@ == due_comprehension_positions(kanji, ts, now, i as int),
                prod@ == due_production_positions(kanji, ts, now, i as int),
                keys@ == due_keys(ts).subrange(0, i as int),
            decreases tracks.len() - i,
        {
            let t = &tracks[i];
            let due = t.card.due();
            keys.push((due.secs as i128, due.nanos as u64));
            if at_or_before(due, now) && self.is_content_id(t.kanji_id) {
                if t.kind == TrackKind::Comprehension {
                    comp.push(i);
                } else if !self.comprehension_due_today(tracks, t.kanji_id, now) {
                    prod.push(i);
                }
            }
            proof {
                assert(keys@ =~= due_keys(ts).subrange(0, i + 1));
            }
            i = i + 1;
        }
        proof {
            assert(keys@ =~= due_keys(ts));
            assert forall|t: int| 0 <= t < comp@.len() implies (#[trigger] comp@[t]) < keys@.len() by {
                lemma_due_comprehension_positions(kanji, ts, now, ts.len() as int, t);
            }
            assert forall|t: int| 0 <= t < prod@.len() implies (#[trigger] prod@[t]) < keys@.len() by {
                lemma_due_production_positions(kanji, ts, now, ts.len() as int, t);
            }
        }
        let comp_sorted = stable_sort_indices(&comp, &keys);
        let prod_sorted = stable_sort_indices(&prod, &keys);
        proof {
            lemma_sorted_elems(comp@, keys@);
            lemma_sorted_elems(prod@, keys@);
            lemma_due_positions_len(kanji, ts, now, ts.len() as int);
        }
        let ghost q = comp_sorted@ + prod_sorted@;
        let cap = self.settings.daily_review_cap;
        let total = comp_sorted.len() + prod_sorted.len();
        let n = if cap < total {
            cap
        } else {
            total
        };
        let mut items: Vec<(i64, TrackKind)> = Vec::new();
        let mut j: usize = 0;
        while j < n
            invariant
                j <= n <= q.len(),
                q == comp_sorted@ + prod_sorted@,
                total == q.len(),
                q == due_queue(kanji, ts, now),
                ts == tracks@,
                comp_sorted@ == sorted_stable(comp@, keys@),
                prod_sorted@ == sorted_stable(prod@, keys@),
                comp@ == due_comprehension_positions(kanji, ts, now, ts.len() as int),
                prod@ == due_production_positions(kanji, ts, now, ts.len() as int),
                keys@.len() == ts.len(),
                items@ == q.take(j as int).map_values(|p: usize| (ts[p as int].kanji_id, ts[p as int].kind)),
            decreases n - j,
        {
            let p = if j < comp_sorted.len() {
                comp_sorted[j]
            } else {
                prod_sorted[j - comp_sorted.len()]
            };
            proof {
                assert(p == q[j as int]);
                if j < comp_sorted.len() {
                    lemma_sorted_contains(comp@, keys@, j as int);
                    let w = choose|w: int| 0 <= w < comp@.len() && comp@[w] == p;
                    lemma_due_comprehension_positions(kanji, ts, now, ts.len() as int, w);
                } else {
                    lemma_sorted_contains(prod@, keys@, j - comp_sorted.len());
                    let w = choose|w: int| 0 <= w < prod@.len() && prod@[w] == p;
                    lemma_due_production_positions(kanji, ts, now, ts.len() as int, w);
                }
            }
            items.push((tracks[p].kanji_id, tracks[p].kind));
            proof {
                assert(items@ =~= q.take(j + 1).map_values(|p: usize| (ts[p as int].kanji_id, ts[p as int].kind)));
            }
            j = j + 1;
        }
        items
    }

    /// If at least `clear_percent` percent of the unlocked level's kanji have a mature
    /// comprehension track, unlock the next (lower-numbered) level.
    fn maybe_unlock_level(&self, state: &mut StudyState)
        requires
            old(state).wf(),
        ensures
            final(state).wf(),
            final(state).spec_tracks() == old(state).spec_tracks(),
            final(state).spec_level() == unlock_step(
                self.content.kanji@,
                old(state).spec_tracks(),
                old(state).spec_level(),
                self.settings,
            ),
    {
        let level = state.unlocked_level();
        if level <= 1 {
            return;
        }
        let kanji = &self.content.kanji;
        let ghost ts = state.spec_tracks();
        let days = self.settings.mature_stability_days;
        let mut size: usize = 0;
        let mut mature: usize = 0;
        let mut i: usize = 0;
        while i < kanji.len()
            invariant
                i <= kanji@.len(),
                ts == state.spec_tracks(),
                state.wf(),
                level == state.spec_level(),
                size == level_size(kanji@, level, i as int),
                mature == level_mature_count(kanji@, ts, level, days, i as int),
                mature <= size <= i,
            decreases kanji.len() - i,
        {
            if kanji[i].level == level {
                size = size + 1;
                match state.track(kanji[i].id, TrackKind::Comprehension) {
                    Some(t) => {
                        let m = comprehension_mature(&t.card, days);
                        proof {
                            let w = choose|w: int|
                                is_key(ts, w, kanji@[i as int].id, TrackKind::Comprehension) && ts[w] == *t;
                            assert forall|v: int| is_key(ts, v, kanji@[i as int].id, TrackKind::Comprehension)
                                implies v == w by {
                                if v != w {
                                    assert(!(ts[v].kanji_id == ts[w].kanji_id && ts[v].kind == ts[w].kind));
                                }
                            }
                            assert(m == mature_comprehension(ts, kanji@[i as int].id, days));
                        }
                        if m {
                            mature = mature + 1;
                        }
                    },
                    None => {},
                }
            }
            i = i + 1;
        }
        if size == 0 {
            return;
        }
        proof {
            let a = self.settings.clear_percent as u128;
            let b = size as u128;
            assert(a * b <= 0xffff_ffffu128 * 0xffff_ffff_ffff_ffffu128) by (nonlinear_arith)
                requires
                    a <= 0xffff_ffffu128,
                    b <= 0xffff_ffff_ffff_ffffu128,
            ;
        }
        if (mature as u128) * 100 >= (self.settings.clear_percent as u128) * (size as u128) {
            state.set_unlocked_level(level - 1);
        }
    }

    /// Grade a track with the worst of the per-mode ratings (one FSRS review). A graded
    /// comprehension track may activate the production track and may unlock the next level.
    /// No-op if there are no ratings or the track does not exist.
    pub fn grade(
        &self,
        state: &mut StudyState,
        kanji_id: i64,
        kind: TrackKind,
        ratings: &[Rating],
        now: Timestamp,
    )
        requires
            old(state).wf(),
            now.wf(),
            now.secs <= REVIEW_SECS_LIMIT,
            self.scheduler@ == standard_settings(),
            forall|i: int|
                is_key(old(state).spec_tracks(), i, kanji_id, kind) ==> old(state).spec_tracks()[i].card@.reps
                    < i32::MAX && old(state).spec_tracks()[i].card@.lapses < i32::MAX,
        ensures
            final(state).wf(),
            grade_result(
                self.content.kanji@,
                self.settings,
                old(state).spec_tracks(),
                old(state).spec_level(),
                final(state).spec_tracks(),
                final(state).spec_level(),
                kanji_id,
                kind,
                ratings@,
                now,
            ),
            production_follows_comprehension(old(state).spec_tracks())
                ==> production_follows_comprehension(final(state).spec_tracks()),
            forall|x: i64|
                introduced(final(state).spec_tracks(), x) == introduced(old(state).spec_tracks(), x),
            prereq_closed(self.content.kanji@, old(state).spec_tracks()) ==> prereq_closed(
                self.content.kanji@,
                final(state).spec_tracks(),
            ),
    {
        let worst = match worst_rating(ratings) {
            Some(w) => w,
            None => return ,
        };
        let pos = match state.find(kanji_id, kind) {
            Some(p) => p,
            None => return ,
        };
        let ghost old_ts = state.spec_tracks();
        let ghost old_level = state.spec_level();
        let new_card = self.scheduler.review(kanji_id, kind, &state.tracks()[pos].card, worst, now);
        let ghost c = new_card;
        let stability = new_card.stability_days();
        let reps = new_card.reps();
        state.set_card(pos, new_card);
        let ghost reviewed = state.spec_tracks();
        assert(reviewed == with_card(old_ts, pos as int, c));
        if kind == TrackKind::Comprehension {
            let has_prod = state.contains(kanji_id, TrackKind::Production);
            if !has_prod && stability >= self.settings.production_gate_days as u64 && reps >= 2 {
                let t = Track {
                    kanji_id,
                    kind: TrackKind::Production,
                    card: Scheduler::new_card(now),
                    introduced_at: now,
                };
                state.insert_track(t);
                proof {
                    let fin = state.spec_tracks();
                    assert(fin == reviewed.push(t));
                    assert(fin.subrange(0, reviewed.len() as int) =~= reviewed);
                }
            }
            let ghost before_unlock = state.spec_tracks();
            self.maybe_unlock_level(state);
            proof {
                let fin = state.spec_tracks();
                assert(is_key(old_ts, pos as int, kanji_id, kind));
                if production_follows_comprehension(old_ts) {
                    assert forall|q: int|
                        0 <= q < fin.len() && (#[trigger] fin[q]).kind == TrackKind::Production
                        implies introduced(fin, fin[q].kanji_id) by {
                        if q < old_ts.len() {
                            if q == pos {
                                assert(false);
                            }
                            assert(fin[q] == old_ts[q]);
                            let w = choose|w: int| is_key(old_ts, w, old_ts[q].kanji_id, TrackKind::Comprehension);
                            assert(is_key(fin, w, old_ts[q].kanji_id, TrackKind::Comprehension));
                        } else {
                            assert(fin[q].kanji_id == kanji_id);
                            assert(is_key(fin, pos as int, kanji_id, TrackKind::Comprehension));
                        }
                    }
                }
            }
        } else {
            proof {
                let fin = state.spec_tracks();
                if production_follows_comprehension(old_ts) {
                    assert forall|q: int|
                        0 <= q < fin.len() && (#[trigger] fin[q]).kind == TrackKind::Production
                        implies introduced(fin, fin[q].kanji_id) by {
                        assert(fin[q].kanji_id == old_ts[q].kanji_id && fin[q].kind == old_ts[q].kind);
                        let w = choose|w: int| is_key(old_ts, w, old_ts[q].kanji_id, TrackKind::Comprehension);
                        assert(w != pos);
                        assert(is_key(fin, w, old_ts[q].kanji_id, TrackKind::Comprehension));
                    }
                }
            }
        }
        proof {
            law_grading_keeps_introductions(
                self.content.kanji@,
                self.settings,
                old_ts,
                old_level,
                state.spec_tracks(),
                state.spec_level(),
                kanji_id,
                kind,
                ratings@,
                now,
                pos as int,
                c,
                worst,
            );
            assert(graded(
                self.content.kanji@,
                self.settings,
                old_ts,
                old_level,
                state.spec_tracks(),
                state.spec_level(),
                kanji_id,
                kind,
                ratings@,
                now,
                pos as int,
                c,
                worst,
            ));
        }
    }
}


// ---------------------------------------------------------------------------------------------
// Laws.
// ---------------------------------------------------------------------------------------------

/// The review queue holds only tracks of content kanji that are due; comprehension items all
/// come before production items; within each kind items come earliest-due first; and a
/// production item is never handed out on a day when its kanji's comprehension track falls due
/// that day or earlier (anti-priming).
pub proof fn law_due_queue_order(kanji: Seq<KanjiMeta>, ts: Seq<Track>, now: Timestamp)
    requires
        ts.len() <= usize::MAX,
    ensures
        forall|k: int|
            0 <= k < due_queue(kanji, ts, now).len() ==> {
                let p = #[trigger] due_queue(kanji, ts, now)[k] as int;
                &&& 0 <= p < ts.len()
                &&& ts_le(ts[p].card@.due, now)
                &&& in_content(kanji, ts[p].kanji_id)
                &&& ts[p].kind == TrackKind::Production ==> !comprehension_due_today(ts, ts[p].kanji_id, now)
            },
        forall|k: int, l: int|
            0 <= k < l < due_queue(kanji, ts, now).len() ==> {
                let p = #[trigger] due_queue(kanji, ts, now)[k] as int;
                let q = #[trigger] due_queue(kanji, ts, now)[l] as int;
                &&& !(ts[p].kind == TrackKind::Production && ts[q].kind == TrackKind::Comprehension)
                &&& ts[p].kind == ts[q].kind ==> ts_le(ts[p].card@.due, ts[q].card@.due)
            },
{
    let cp = due_comprehension_positions(kanji, ts, now, ts.len() as int);
    let pp = due_production_positions(kanji, ts, now, ts.len() as int);
    let keys = due_keys(ts);
    let cs = sorted_stable(cp, keys);
    let ps = sorted_stable(pp, keys);
    let q = due_queue(kanji, ts, now);
    lemma_sorted_elems(cp, keys);
    lemma_sorted_elems(pp, keys);
    lemma_sorted_stable_sorted(cp, keys);
    lemma_sorted_stable_sorted(pp, keys);
    assert(q == cs + ps);
    assert forall|k: int| 0 <= k < q.len() implies {
        let p = #[trigger] q[k] as int;
        &&& 0 <= p < ts.len()
        &&& ts_le(ts[p].card@.due, now)
        &&& in_content(kanji, ts[p].kanji_id)
        &&& (ts[p].kind == TrackKind::Production ==> !comprehension_due_today(ts, ts[p].kanji_id, now))
        &&& (k < cs.len() ==> ts[p].kind == TrackKind::Comprehension)
        &&& (k >= cs.len() ==> ts[p].kind == TrackKind::Production)
    } by {
        if k < cs.len() {
            lemma_sorted_contains(cp, keys, k);
            let w = choose|w: int| 0 <= w < cp.len() && cp[w] == cs[k];
            lemma_due_comprehension_positions(kanji, ts, now, ts.len() as int, w);
        } else {
            lemma_sorted_contains(pp, keys, k - cs.len());
            let w = choose|w: int| 0 <= w < pp.len() && pp[w] == ps[k - cs.len()];
            lemma_due_production_positions(kanji, ts, now, ts.len() as int, w);
        }
    }
    assert forall|k: int, l: int| 0 <= k < l < q.len() implies {
        let p = #[trigger] q[k] as int;
        let r = #[trigger] q[l] as int;
        &&& !(ts[p].kind == TrackKind::Production && ts[r].kind == TrackKind::Comprehension)
        &&& ts[p].kind == ts[r].kind ==> ts_le(ts[p].card@.due, ts[r].card@.due)
    } by {
        let p = q[k] as int;
        let r = q[l] as int;
        if k < cs.len() && l < cs.len() {
            assert(crate::order::idx_le(keys, cs[k], cs[l]));
        } else if k >= cs.len() && l >= cs.len() {
            assert(crate::order::idx_le(keys, ps[k - cs.len()], ps[l - cs.len()]));
        }
    }
}

/// The due items are the review queue's first items, never more than the daily cap.
pub proof fn law_due_items_capped(kanji: Seq<KanjiMeta>, ts: Seq<Track>, now: Timestamp, cap: usize)
    ensures
        spec_due_items(kanji, ts, now, cap).len() <= cap,
        spec_due_items(kanji, ts, now, cap).len() <= due_queue(kanji, ts, now).len(),
        forall|k: int|
            0 <= k < spec_due_items(kanji, ts, now, cap).len() ==> #[trigger] spec_due_items(kanji, ts, now, cap)[k]
                == (ts[due_queue(kanji, ts, now)[k] as int].kanji_id, ts[due_queue(kanji, ts, now)[k] as int].kind),
{
}

/// A graded track is due strictly later than the grading instant, so it is not handed out
/// again at that instant.
pub proof fn law_graded_not_due_again(
    kanji: Seq<KanjiMeta>,
    settings: Settings,
    old_ts: Seq<Track>,
    old_level: u8,
    fin: Seq<Track>,
    fin_level: u8,
    id: i64,
    kind: TrackKind,
    ratings: Seq<Rating>,
    now: Timestamp,
    i: int,
    c: StudyCard,
    w: Rating,
)
    requires
        graded(kanji, settings, old_ts, old_level, fin, fin_level, id, kind, ratings, now, i, c, w),
        keys_distinct(fin),
        fin.len() <= usize::MAX,
    ensures
        is_key(fin, i, id, kind),
        ts_lt(now, fin[i].card@.due),
        forall|k: int|
            0 <= k < spec_due_items(kanji, fin, now, settings.daily_review_cap).len() ==> #[trigger] spec_due_items(
                kanji,
                fin,
                now,
                settings.daily_review_cap,
            )[k] != (id, kind),
{
    let reviewed = with_card(old_ts, i, c);
    if fin != reviewed {
        assert(fin[i] == fin.subrange(0, reviewed.len() as int)[i]);
    }
    assert(fin[i] == reviewed[i]);
    law_due_queue_order(kanji, fin, now);
    law_due_items_capped(kanji, fin, now, settings.daily_review_cap);
    assert forall|k: int| 0 <= k < spec_due_items(kanji, fin, now, settings.daily_review_cap).len() implies
        #[trigger] spec_due_items(kanji, fin, now, settings.daily_review_cap)[k] != (id, kind) by {
        let p = due_queue(kanji, fin, now)[k] as int;
        assert(0 <= p < fin.len() && ts_le(fin[p].card@.due, now));
        if fin[p].kanji_id == id && fin[p].kind == kind {
            if p != i {
                assert(!(fin[p].kanji_id == fin[i].kanji_id && fin[p].kind == fin[i].kind));
            }
            assert(p == i);
        }
    }
}

/// Grading a comprehension track unlocks the next level exactly when the current level is not
/// the last, has at least one kanji, and at least `clear_percent` percent of its kanji have a
/// mature comprehension track after the grade; otherwise the level stays.
pub proof fn law_level_unlocks_at_clear_percent(
    kanji: Seq<KanjiMeta>,
    settings: Settings,
    old_ts: Seq<Track>,
    old_level: u8,
    fin: Seq<Track>,
    fin_level: u8,
    id: i64,
    ratings: Seq<Rating>,
    now: Timestamp,
    i: int,
    c: StudyCard,
    w: Rating,
)
    requires
        graded(kanji, settings, old_ts, old_level, fin, fin_level, id, TrackKind::Comprehension, ratings, now, i, c, w),
    ensures
        ({
            let size = level_size(kanji, old_level, kanji.len() as int);
            let mature = level_mature_count(kanji, fin, old_level, settings.mature_stability_days, kanji.len() as int);
            &&& (old_level > 1 && size > 0 && mature * 100 >= settings.clear_percent * size) ==> fin_level
                == old_level - 1
            &&& !(old_level > 1 && size > 0 && mature * 100 >= settings.clear_percent * size) ==> fin_level
                == old_level
        }),
{
}

/// A production item is never handed out while its kanji's comprehension track is due, nor
/// on the day that comprehension track falls due: every comprehension track of a kanji whose
/// production item is in the due items is due strictly later than `now`, on a later day.
pub proof fn law_production_waits_for_comprehension(
    kanji: Seq<KanjiMeta>,
    ts: Seq<Track>,
    now: Timestamp,
    cap: usize,
    k: int,
    q: int,
)
    requires
        ts.len() <= usize::MAX,
        0 <= k < spec_due_items(kanji, ts, now, cap).len(),
        spec_due_items(kanji, ts, now, cap)[k].1 == TrackKind::Production,
        is_key(ts, q, spec_due_items(kanji, ts, now, cap)[k].0, TrackKind::Comprehension),
    ensures
        !ts_le(ts[q].card@.due, now),
        spec_day_of(ts[q].card@.due) > spec_day_of(now),
{
    law_due_items_capped(kanji, ts, now, cap);
    law_due_queue_order(kanji, ts, now);
    let p = due_queue(kanji, ts, now)[k] as int;
    assert(ts[p].kind == TrackKind::Production);
    assert(!comprehension_due_today(ts, ts[p].kanji_id, now));
    assert(!(spec_day_of(ts[q].card@.due) <= spec_day_of(now)));
    if ts_le(ts[q].card@.due, now) {
        vstd::arithmetic::div_mod::lemma_div_is_ordered(ts[q].card@.due.secs as int, now.secs as int, 86400);
    }
}

/// Grading moves the unlocked level at most one step, and only toward later levels
/// (lower numbers): a level, once unlocked, stays unlocked.
pub proof fn law_level_never_relocks(
    kanji: Seq<KanjiMeta>,
    settings: Settings,
    old_ts: Seq<Track>,
    old_level: u8,
    fin: Seq<Track>,
    fin_level: u8,
    id: i64,
    kind: TrackKind,
    ratings: Seq<Rating>,
    now: Timestamp,
    i: int,
    c: StudyCard,
    w: Rating,
)
    requires
        graded(kanji, settings, old_ts, old_level, fin, fin_level, id, kind, ratings, now, i, c, w),
    ensures
        fin_level <= old_level,
        old_level <= fin_level + 1,
{
}

/// The first answer on a fresh card never opens the production track, however confident:
/// it takes at least two reviews.
pub proof fn law_first_answer_keeps_production_closed(
    kanji: Seq<KanjiMeta>,
    settings: Settings,
    old_ts: Seq<Track>,
    old_level: u8,
    fin: Seq<Track>,
    fin_level: u8,
    id: i64,
    kind: TrackKind,
    ratings: Seq<Rating>,
    now: Timestamp,
    i: int,
    c: StudyCard,
    w: Rating,
)
    requires
        graded(kanji, settings, old_ts, old_level, fin, fin_level, id, kind, ratings, now, i, c, w),
        old_ts[i].card@.reps == 0,
    ensures
        fin == with_card(old_ts, i, c),
        fin.len() == old_ts.len(),
{
}


/// Introductions never push a day past its budget: after an introduction, the content kanji
/// introduced today number at most `new_per_day` (or what had already been introduced today,
/// if more). Tracks of kanji outside the content never count toward the budget.
pub proof fn law_daily_budget(
    kanji: Seq<KanjiMeta>,
    settings: Settings,
    old_ts: Seq<Track>,
    level: u8,
    fin: Seq<Track>,
    added: int,
    now: Timestamp,
)
    requires
        0 <= added <= spec_new_remaining(kanji, settings, old_ts, level, now),
        introduced_today_count(kanji, fin, now) == introduced_today_count(kanji, old_ts, now) + added,
    ensures
        introduced_today_count(kanji, fin, now) <= if settings.new_per_day >= introduced_today_count(
            kanji,
            old_ts,
            now,
        ) {
            settings.new_per_day as int
        } else {
            introduced_today_count(kanji, old_ts, now) as int
        },
{
}


/// Grading never introduces a kanji nor takes one away: the comprehension tracks stay the
/// same kanji (so prerequisite closure is kept).
pub proof fn law_grading_keeps_introductions(
    kanji: Seq<KanjiMeta>,
    settings: Settings,
    old_ts: Seq<Track>,
    old_level: u8,
    fin: Seq<Track>,
    fin_level: u8,
    id: i64,
    kind: TrackKind,
    ratings: Seq<Rating>,
    now: Timestamp,
    i: int,
    c: StudyCard,
    w: Rating,
)
    requires
        graded(kanji, settings, old_ts, old_level, fin, fin_level, id, kind, ratings, now, i, c, w),
    ensures
        forall|x: i64| introduced(fin, x) == introduced(old_ts, x),
        prereq_closed(kanji, old_ts) ==> prereq_closed(kanji, fin),
{
    let reviewed = with_card(old_ts, i, c);
    assert forall|q: int| 0 <= q < old_ts.len() implies #[trigger] fin[q].kanji_id == old_ts[q].kanji_id
        && fin[q].kind == old_ts[q].kind by {
        if fin != reviewed {
            assert(fin[q] == fin.subrange(0, reviewed.len() as int)[q]);
        }
    }
    assert forall|x: i64| introduced(fin, x) == introduced(old_ts, x) by {
        if introduced(fin, x) {
            let q = choose|q: int| is_key(fin, q, x, TrackKind::Comprehension);
            if q >= old_ts.len() {
                assert(fin[q] == fin.last());
            }
            assert(is_key(old_ts, q, x, TrackKind::Comprehension));
        }
        if introduced(old_ts, x) {
            let q = choose|q: int| is_key(old_ts, q, x, TrackKind::Comprehension);
            assert(fin[q].kanji_id == old_ts[q].kanji_id && fin[q].kind == old_ts[q].kind);
            assert(is_key(fin, q, x, TrackKind::Comprehension));
        }
    }
}

} // verus!
