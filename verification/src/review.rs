//! A review sitting as the user works through it: the queue of due items, grading its head,
//! one-step undo of the last grade, the dashboard summary, and settings adjustment.

use vstd::prelude::*;
use crate::domain::{Rating, TrackKind};
use crate::scheduler::{REVIEW_SECS_LIMIT, standard_settings};
use crate::session::{
    Engine, Settings, StudyState, Track, KanjiMeta, is_key, grade_result, spec_due_items,
    spec_new_remaining, level_size, in_content,
};
use crate::stats::{current_streak, streak};
use crate::time::{Timestamp, Day};

verus! {

/// The items left to review, and the state before the last grade with the item it graded.
pub struct ReviewSession {
    queue: Vec<(i64, TrackKind)>,
    undo: Option<(StudyState, (i64, TrackKind))>,
}

/// A whole study state: its tracks and its unlocked level.
pub type StateSnapshot = (Seq<Track>, u8);

/// A grade moved a sitting from queue `q` and state `st` to `after`: the head item left the
/// queue, and the state before the grade is kept for undo.
pub open spec fn graded_step(q: Seq<(i64, TrackKind)>, st: StateSnapshot, after: ReviewSession) -> bool {
    &&& q.len() > 0
    &&& after.spec_queue() == q.drop_first()
    &&& after.spec_undo() == Some((st, q[0]))
}

/// An undo moved a sitting from `before` to `after` with the state `st` afterwards: the kept
/// state is back and its item is at the head of the queue again.
pub open spec fn undone_step(before: ReviewSession, after: ReviewSession, st: StateSnapshot) -> bool {
    match before.spec_undo() {
        Some((snap, item)) => {
            &&& st == snap
            &&& after.spec_queue() == seq![item] + before.spec_queue()
            &&& after.spec_undo() is None
        },
        None => false,
    }
}

impl ReviewSession {
    /// The items left to review, head first.
    pub closed spec fn spec_queue(&self) -> Seq<(i64, TrackKind)> {
        self.queue@
    }

    /// The state before the last grade and the item it graded, while it can be undone.
    pub closed spec fn spec_undo(&self) -> Option<(StateSnapshot, (i64, TrackKind))> {
        match self.undo {
            Some((s, item)) => Some((s.spec_state(), item)),
            None => None,
        }
    }

    /// The kept state is well formed.
    pub closed spec fn wf(&self) -> bool {
        match self.undo {
            Some((s, _)) => s.wf(),
            None => true,
        }
    }

    /// An empty sitting.
    pub fn new() -> (s: ReviewSession)
        ensures
            s.wf(),
            s.spec_queue() == Seq::<(i64, TrackKind)>::empty(),
            s.spec_undo() is None,
    {
        ReviewSession { queue: Vec::new(), undo: None }
    }

    /// Start working through the items due at `now`; nothing can be undone yet.
    pub fn load(&mut self, engine: &Engine, state: &StudyState, now: Timestamp)
        requires
            state.wf(),
            now.wf(),
        ensures
            final(self).wf(),
            final(self).spec_queue() == spec_due_items(
                engine.content.kanji@,
                state.spec_tracks(),
                now,
                engine.settings.daily_review_cap,
            ),
            final(self).spec_undo() is None,
    {
        self.queue = engine.due_items(state, now);
        self.undo = None;
    }

    /// The item to review now.
    pub fn current(&self) -> (r: Option<(i64, TrackKind)>)
        ensures
            self.spec_queue().len() == 0 ==> r is None,
            self.spec_queue().len() > 0 ==> r == Some(self.spec_queue()[0]),
    {
        if self.queue.len() == 0 {
            None
        } else {
            Some(self.queue[0])
        }
    }

    /// The items left to review.
    pub fn queue(&self) -> (q: &Vec<(i64, TrackKind)>)
        ensures
            q@ == self.spec_queue(),
    {
        &self.queue
    }

    /// Whether the last grade can be undone.
    pub fn can_undo(&self) -> (b: bool)
        ensures
            b == self.spec_undo() is Some,
    {
        self.undo.is_some()
    }

    /// Grade the head item with `rating` at `now` and return it; the state before the grade is
    /// kept for undo. Nothing happens on an empty queue.
    pub fn grade(&mut self, engine: &Engine, state: &mut StudyState, rating: Rating, now: Timestamp) -> (r: Option<(i64, TrackKind)>)
        requires
            old(self).wf(),
            old(state).wf(),
            now.wf(),
            now.secs <= REVIEW_SECS_LIMIT,
            engine.scheduler@ == standard_settings(),
            old(self).spec_queue().len() > 0 ==> forall|i: int|
                is_key(old(state).spec_tracks(), i, old(self).spec_queue()[0].0, old(self).spec_queue()[0].1)
                    ==> old(state).spec_tracks()[i].card@.reps < i32::MAX
                    && old(state).spec_tracks()[i].card@.lapses < i32::MAX,
        ensures
            final(self).wf(),
            final(state).wf(),
            old(self).spec_queue().len() == 0 ==> {
                &&& r is None
                &&& final(self).spec_queue() == old(self).spec_queue()
                &&& final(self).spec_undo() == old(self).spec_undo()
                &&& final(state).spec_state() == old(state).spec_state()
            },
            old(self).spec_queue().len() > 0 ==> {
                let item = old(self).spec_queue()[0];
                &&& r == Some(item)
                &&& graded_step(old(self).spec_queue(), old(state).spec_state(), *final(self))
                &&& grade_result(
                    engine.content.kanji@,
                    engine.settings,
                    old(state).spec_tracks(),
                    old(state).spec_level(),
                    final(state).spec_tracks(),
                    final(state).spec_level(),
                    item.0,
                    item.1,
                    seq![rating],
                    now,
                )
            },
    {
        if self.queue.len() == 0 {
            return None;
        }
        let item = self.queue.remove(0);
        assert(item == old(self).spec_queue()[0]);
        let snapshot = state.copy();
        assert(state.spec_tracks() == old(state).spec_tracks());
        let ratings = [rating];
        assert(ratings@ =~= seq![rating]);
        engine.grade(state, item.0, item.1, &ratings, now);
        self.undo = Some((snapshot, item));
        Some(item)
    }

    /// Undo the last grade: the state before it comes back and its item returns to the head of
    /// the queue. Returns whether there was a grade to undo; without one nothing changes.
    pub fn undo(&mut self, state: &mut StudyState) -> (r: bool)
        requires
            old(self).wf(),
        ensures
            final(self).wf(),
            r == old(self).spec_undo() is Some,
            r ==> undone_step(*old(self), *final(self), final(state).spec_state()) && final(state).wf(),
            !r ==> final(self).spec_queue() == old(self).spec_queue() && final(self).spec_undo() is None
                && final(state).spec_state() == old(state).spec_state(),
    {
        let mut taken: Option<(StudyState, (i64, TrackKind))> = None;
        std::mem::swap(&mut taken, &mut self.undo);
        match taken {
            Some((snapshot, item)) => {
                *state = snapshot;
                let ghost q = self.queue@;
                self.queue.insert(0, item);
                assert(self.queue@ =~= seq![item] + q);
                true
            },
            None => false,
        }
    }
}

/// Undoing a grade restores the study state and the queue exactly as they were before it, and
/// leaves nothing more to undo. `ReviewSession::grade` on a sitting with queue `q` and state `st`
/// ensures `graded_step(q, st, graded)`; a following `ReviewSession::undo` ensures
/// `undone_step(graded, undone, st_after)` for the state `st_after` it leaves; so the state after
/// the undo is `st` (every track with its full card memory, and the unlocked level), the queue
/// is `q` again with the graded item at its head, and no undo is pending.
pub proof fn law_undo_restores_grade(
    q: Seq<(i64, TrackKind)>,
    st: StateSnapshot,
    graded: ReviewSession,
    undone: ReviewSession,
    st_after: StateSnapshot,
)
    requires
        graded_step(q, st, graded),
        undone_step(graded, undone, st_after),
    ensures
        undone.spec_queue() == q,
        st_after == st,
        undone.spec_undo() is None,
{
    assert(seq![q[0]] + q.drop_first() =~= q);
}

// ---------------------------------------------------------------------------------------------
// The dashboard.
// ---------------------------------------------------------------------------------------------

/// The dashboard figures.
pub struct Dash {
    pub level: u8,
    /// Kanji in the unlocked level.
    pub total: usize,
    /// Content kanji introduced (comprehension tracks).
    pub introduced: usize,
    /// Items due now.
    pub due: usize,
    /// New kanji an introduction now would take.
    pub new_remaining: usize,
    /// Simulated days ahead of the clock.
    pub offset_days: i64,
    /// Current study streak in days.
    pub streak: u32,
    /// Reviews logged today.
    pub reviews_today: usize,
}

/// Comprehension tracks of content kanji among the first `n` tracks.
pub open spec fn comprehension_tracks(kanji: Seq<KanjiMeta>, ts: Seq<Track>, n: int) -> nat
    decreases n,
{
    if n <= 0 {
        0
    } else {
        comprehension_tracks(kanji, ts, n - 1) + if ts[n - 1].kind == TrackKind::Comprehension && in_content(
            kanji,
            ts[n - 1].kanji_id,
        ) {
            1nat
        } else {
            0nat
        }
    }
}

fn count_level(kanji: &Vec<KanjiMeta>, level: u8) -> (n: usize)
    ensures
        n == level_size(kanji@, level, kanji@.len() as int),
{
    let mut n: usize = 0;
    let mut i: usize = 0;
    while i < kanji.len()
        invariant
            i <= kanji@.len(),
            n <= i,
            n == level_size(kanji@, level, i as int),
        decreases kanji.len() - i,
    {
        if kanji[i].level == level {
            n = n + 1;
        }
        i = i + 1;
    }
    n
}

fn count_comprehension(engine: &Engine, tracks: &Vec<Track>) -> (n: usize)
    ensures
        n == comprehension_tracks(engine.content.kanji@, tracks@, tracks@.len() as int),
{
    let mut n: usize = 0;
    let mut i: usize = 0;
    while i < tracks.len()
        invariant
            i <= tracks@.len(),
            n <= i,
            n == comprehension_tracks(engine.content.kanji@, tracks@, i as int),
        decreases tracks.len() - i,
    {
        if tracks[i].kind == TrackKind::Comprehension && engine.is_content_id(tracks[i].kanji_id) {
            n = n + 1;
        }
        i = i + 1;
    }
    n
}

/// The dashboard at `now`: the unlocked level and its size, introductions, due items, the new
/// kanji left for today, the clock offset, the current streak over the sorted, unique study
/// days (ending no later than `today`), and today's review count.
pub fn compute_dash(
    engine: &Engine,
    state: &StudyState,
    now: Timestamp,
    study_days: &[Day],
    today: Day,
    reviews_today: usize,
    offset_days: i64,
) -> (d: Dash)
    requires
        state.wf(),
        now.wf(),
        study_days@.len() < u32::MAX,
    ensures
        d.level == state.spec_level(),
        d.total == level_size(engine.content.kanji@, state.spec_level(), engine.content.kanji@.len() as int),
        d.introduced == comprehension_tracks(engine.content.kanji@, state.spec_tracks(), state.spec_tracks().len() as int),
        d.due == spec_due_items(engine.content.kanji@, state.spec_tracks(), now, engine.settings.daily_review_cap).len(),
        d.new_remaining == spec_new_remaining(engine.content.kanji@, engine.settings, state.spec_tracks(), state.spec_level(), now),
        d.offset_days == offset_days,
        d.streak == current_streak(study_days@, today),
        d.reviews_today == reviews_today,
{
    let level = state.unlocked_level();
    let (cur, _) = streak(study_days, today);
    Dash {
        level,
        total: count_level(&engine.content.kanji, level),
        introduced: count_comprehension(engine, state.tracks()),
        due: engine.due_items(state, now).len(),
        new_remaining: engine.new_remaining_today(state, now),
        offset_days,
        streak: cur,
        reviews_today,
    }
}

// ---------------------------------------------------------------------------------------------
// Settings.
// ---------------------------------------------------------------------------------------------

/// `v` clamped to `lo..=hi`.
pub open spec fn clamp(v: int, lo: int, hi: int) -> int {
    if v < lo { lo } else if v > hi { hi } else { v }
}

/// Adjust the daily new-kanji count by `d_new` (kept within 1 to 100) and the daily review cap
/// by `d_cap` (kept within 10 to 500); the other settings are unchanged.
pub fn change_setting(settings: Settings, d_new: i64, d_cap: i64) -> (s: Settings)
    ensures
        s.new_per_day == clamp(settings.new_per_day + d_new, 1, 100),
        s.daily_review_cap == clamp(settings.daily_review_cap + d_cap, 10, 500),
        s.mature_stability_days == settings.mature_stability_days,
        s.production_gate_days == settings.production_gate_days,
        s.clear_percent == settings.clear_percent,
{
    let npd = settings.new_per_day as i128 + d_new as i128;
    let cap = settings.daily_review_cap as i128 + d_cap as i128;
    let npd: usize = if npd < 1 { 1 } else if npd > 100 { 100 } else { npd as usize };
    let cap: usize = if cap < 10 { 10 } else if cap > 500 { 500 } else { cap as usize };
    Settings { new_per_day: npd, daily_review_cap: cap, ..settings }
}

} // verus!
