//! Thin wrapper over `rs-fsrs` (FSRS-4.5) with MnemoKanji's parameters and conventions:
//! desired retention 0.90, fuzz on, short-term steps on.
//!
//! A [`Card`] carries the complete FSRS memory state from one review to the next; the
//! scheduling logic reads it through its plain-valued view: the due instant, the number of
//! reviews, the memory state, and the stability in whole days.

use vstd::prelude::*;
use chrono::DateTime;
use crate::domain::{Rating, TrackKind, kind_name};
use crate::pipeline::{decimal, decimal_string};
use crate::text::{chars_of, string_of};
use crate::time::{Timestamp, ts_lt, SECS_LIMIT};

verus! {

#[verifier::external_type_specification]
#[verifier::external_body]
pub struct ExFsrsCard(rs_fsrs::Card);

#[verifier::external_type_specification]
#[verifier::external_body]
pub struct ExFsrsParameters(rs_fsrs::Parameters);

/// Comprehension counts as mature (toward clearing a level) at this stability, in days.
pub const MATURE_STABILITY_DAYS: u32 = 21;

/// Latest instant at which a review may be taken: a century of intervals later is still
/// a representable date-time.
pub const REVIEW_SECS_LIMIT: i64 = 7_990_000_000_000;

/// The FSRS learning state of a card.
#[derive(Clone, Copy, Debug, PartialEq, Eq, Structural)]
pub enum CardState {
    New,
    Learning,
    Review,
    Relearning,
}

/// The plain-valued view of a card.
pub struct CardView {
    /// When the card is next due.
    pub due: Timestamp,
    /// Number of reviews so far.
    pub reps: i32,
    /// Memory stability in whole days (the FSRS stability truncated toward zero).
    pub stability_days: u64,
    /// The FSRS learning state.
    pub state: CardState,
    /// Number of lapses (reviews of a graduated card answered `Again`).
    pub lapses: i32,
    /// When the card was last reviewed (for a fresh card: when it was made).
    pub last_review: Timestamp,
    /// The rating the scheduler applied in the review that produced this card (none for a
    /// fresh or stored card).
    pub last_rating: Option<Rating>,
}

/// One FSRS card: its full memory state and the plain values read from it.
#[derive(Debug)]
pub struct StudyCard {
    due: Timestamp,
    reps: i32,
    stability_days: u64,
    state: CardState,
    lapses: i32,
    last_review: Timestamp,
    last_rating: Option<Rating>,
    memory: rs_fsrs::Card,
}

impl View for StudyCard {
    type V = CardView;

    closed spec fn view(&self) -> CardView {
        CardView {
            due: self.due,
            reps: self.reps,
            stability_days: self.stability_days,
            state: self.state,
            lapses: self.lapses,
            last_review: self.last_review,
            last_rating: self.last_rating,
        }
    }
}

impl StudyCard {
    /// When the card is next due.
    pub fn due(&self) -> (t: Timestamp)
        ensures
            t == self@.due,
    {
        self.due
    }

    /// Number of reviews so far.
    pub fn reps(&self) -> (n: i32)
        ensures
            n == self@.reps,
    {
        self.reps
    }

    /// Memory stability in whole days.
    pub fn stability_days(&self) -> (d: u64)
        ensures
            d == self@.stability_days,
    {
        self.stability_days
    }

    /// The FSRS learning state.
    pub fn state(&self) -> (s: CardState)
        ensures
            s == self@.state,
    {
        self.state
    }

    /// The rs-fsrs memory state the card carries.
    pub closed spec fn spec_memory(&self) -> rs_fsrs::Card {
        self.memory
    }

    /// The card for a stored rs-fsrs memory state: it carries exactly that state. Its plain
    /// values are read from the state by rs-fsrs field reads; the state is opaque here, so no
    /// clause states them.
    pub fn from_memory(memory: rs_fsrs::Card) -> (c: StudyCard)
        ensures
            c.spec_memory() == memory,
            c@.last_rating is None,
    {
        from_fsrs(memory, None)
    }

    /// The rs-fsrs memory state the card carries, for storage.
    pub fn memory(&self) -> (m: &rs_fsrs::Card)
        ensures
            *m == self.spec_memory(),
    {
        &self.memory
    }

    /// Number of lapses.
    pub fn lapses(&self) -> (n: i32)
        ensures
            n == self@.lapses,
    {
        self.lapses
    }

    /// The rating applied in the review that produced this card, if it came from one.
    pub fn last_rating(&self) -> (r: Option<Rating>)
        ensures
            r == self@.last_rating,
    {
        self.last_rating
    }

    /// When the card was last reviewed.
    pub fn last_review(&self) -> (t: Timestamp)
        ensures
            t == self@.last_review,
    {
        self.last_review
    }

    /// A copy of the card: the same plain values and the same memory state.
    pub fn copy(&self) -> (c: StudyCard)
        ensures
            c == *self,
    {
        StudyCard {
            due: self.due,
            reps: self.reps,
            stability_days: self.stability_days,
            state: self.state,
            lapses: self.lapses,
            last_review: self.last_review,
            last_rating: self.last_rating,
            memory: fsrs_card_clone(&self.memory),
        }
    }

    /// The same card with its stability set to `stability_days` whole days and its review
    /// count set to `reps` (as when prior knowledge is recorded directly).
    pub fn with_memory(self, stability_days: u32, reps: i32) -> (c: StudyCard)
        ensures
            c@ == (CardView { stability_days: stability_days as u64, reps, ..self@ }),
    {
        fsrs_set_memory(self, stability_days, reps)
    }
}

/// The plain values of an rs-fsrs card, kept beside it (field reads and type conversions:
/// `due` and `last_review` as seconds and sub-second nanoseconds, `stability` truncated to
/// whole days), with `last` as the rating that produced it.
#[verifier::external_body]
fn from_fsrs(c: rs_fsrs::Card, last: Option<Rating>) -> (r: StudyCard)
    ensures
        r.spec_memory() == c,
        r@.last_rating == last,
{
    let state = match c.state {
        rs_fsrs::State::New => CardState::New,
        rs_fsrs::State::Learning => CardState::Learning,
        rs_fsrs::State::Review => CardState::Review,
        rs_fsrs::State::Relearning => CardState::Relearning,
    };
    let due = Timestamp { secs: c.due.timestamp(), nanos: c.due.timestamp_subsec_nanos() };
    let lr = Timestamp { secs: c.last_review.timestamp(), nanos: c.last_review.timestamp_subsec_nanos() };
    let (reps, stability_days, lapses) = (c.reps, c.stability as u64, c.lapses);
    StudyCard { due, reps, stability_days, state, lapses, last_review: lr, last_rating: last, memory: c }
}

/// rs-fsrs `Card::clone` (derived: a field-by-field copy, so the copy is the same value).
#[verifier::external_body]
fn fsrs_card_clone(c: &rs_fsrs::Card) -> (r: rs_fsrs::Card)
    ensures
        r == *c,
{
    c.clone()
}

/// A fresh rs-fsrs card (`rs_fsrs::Card::new()`) due at `now` and last reviewed at `now`:
/// zero reviews, zero stability, state `New`.
#[verifier::external_body]
fn fsrs_new_card(now: Timestamp) -> (c: StudyCard)
    requires
        now.wf(),
    ensures
        c@ == fresh_card_view(now),
{
    let at = DateTime::from_timestamp(now.secs, now.nanos).unwrap();
    from_fsrs(rs_fsrs::Card { due: at, last_review: at, ..rs_fsrs::Card::new() }, None)
}

/// Writes the rs-fsrs card fields `stability` (whole days, converted exactly) and `reps`.
#[verifier::external_body]
fn fsrs_set_memory(card: StudyCard, stability_days: u32, reps: i32) -> (c: StudyCard)
    ensures
        c@ == (CardView { stability_days: stability_days as u64, reps, ..card@ }),
{
    let mut m = card.memory;
    m.stability = stability_days.into();
    m.reps = reps;
    from_fsrs(m, card.last_rating)
}

/// rs-fsrs `Parameters::default()` (retention 0.9, maximum interval 36500 days, short-term
/// steps on, the published FSRS-4.5 weights) with `enable_fuzz` set to `fuzz`, and its plain
/// settings read beside it. The contract states those plain settings as the `rs-fsrs` 1.2.1
/// source of `Default for Parameters` sets them; the floating-point ones (retention, weights,
/// decay) are not stated.
#[verifier::external_body]
fn fsrs_parameters(fuzz: bool) -> (s: Scheduler)
    ensures
        s@ == (SchedulerView { maximum_interval: 36500, short_term: true, fuzz }),
{
    let p = rs_fsrs::Parameters { enable_fuzz: fuzz, ..Default::default() };
    Scheduler {
        maximum_interval: p.maximum_interval,
        short_term: p.enable_short_term,
        fuzz: p.enable_fuzz,
        params: p,
    }
}

/// The text `n` in signed decimal notation.
pub open spec fn signed_decimal(n: int) -> Seq<char> {
    if n < 0 {
        seq!['-'] + decimal((-n) as nat)
    } else {
        decimal(n as nat)
    }
}

/// The seed text of a track: its kanji id in decimal, a colon, and the stored name of its kind.
pub open spec fn seed_text(kanji_id: int, kind: TrackKind) -> Seq<char> {
    signed_decimal(kanji_id) + seq![':'] + kind_name(kind)
}

/// The seed text handed to rs-fsrs with a review of the track (`kanji_id`, `kind`), such as
/// `"12:comprehension"`. rs-fsrs 1.2.1 replaces the seed at the start of every review with one
/// of its own (from the review time, the review count and the memory state), so the fuzz it
/// draws does not depend on this text.
pub fn fuzz_seed(kanji_id: i64, kind: TrackKind) -> (s: String)
    ensures
        s@ == seed_text(kanji_id as int, kind),
{
    let magnitude: u64 = if kanji_id < 0 {
        if kanji_id == i64::MIN {
            9_223_372_036_854_775_808u64
        } else {
            (-kanji_id) as u64
        }
    } else {
        kanji_id as u64
    };
    let digits = decimal_string(magnitude);
    let mut v: Vec<char> = Vec::new();
    if kanji_id < 0 {
        v.push('-');
    }
    let mut tail = chars_of(digits.as_str());
    v.append(&mut tail);
    v.push(':');
    let mut name = chars_of(kind.as_str());
    v.append(&mut name);
    proof {
        assert(magnitude as nat == if kanji_id < 0 { (-kanji_id) as nat } else { kanji_id as nat });
        assert(v@ =~= seed_text(kanji_id as int, kind));
    }
    string_of(&v)
}

/// What every rs-fsrs review with short-term steps and fuzz on does to the plain values of a
/// card, as the `rs-fsrs` 1.2.1 source (`Scheduler::new`, `BasicScheduler`) shows it: the
/// rating applied (the one its review log records) is `r`, the review count goes up by one, the last review becomes `now`, a lapse is counted when a card
/// in review is answered `Again`, and the card leaves the `New` state and becomes due strictly
/// later (after whole minutes or at least one whole day).
/// - From `New` the outcome is fixed by the rating: the short learning steps of 1, 5 and 10
///   minutes with the initial stabilities of the default weights (0.4072, 1.1829, 3.1262
///   days), or, for `Easy`, review state with stability 15.4722 days and an interval of at
///   least one day.
/// - From `Learning` or `Relearning`: `Again` and `Hard` keep the state and are due 5 and 10
///   minutes later; `Good` and `Easy` move the card to review, due at least one day later.
/// - From `Review`: `Again` moves the card to relearning, due 5 minutes later; `Hard`, `Good`
///   and `Easy` keep it in review, due at least one day later.
pub open spec fn fsrs_review_facts(old: CardView, r: Rating, now: Timestamp, new: CardView) -> bool {
    &&& new.last_rating == Some(r)
    &&& new.reps == old.reps + 1
    &&& new.last_review == now
    &&& new.lapses == old.lapses + (if old.state == CardState::Review && r == Rating::Again { 1int } else { 0int })
    &&& ts_lt(now, new.due)
    &&& new.due.nanos == now.nanos
    &&& new.state != CardState::New
    &&& old.state == CardState::New ==> match r {
        Rating::Again => new.due.secs == now.secs + 60 && new.state == CardState::Learning
            && new.stability_days == 0,
        Rating::Hard => new.due.secs == now.secs + 300 && new.state == CardState::Learning
            && new.stability_days == 1,
        Rating::Good => new.due.secs == now.secs + 600 && new.state == CardState::Learning
            && new.stability_days == 3,
        Rating::Easy => new.due.secs >= now.secs + 86_400 && new.state == CardState::Review
            && new.stability_days == 15,
    }
    &&& (old.state == CardState::Learning || old.state == CardState::Relearning) ==> match r {
        Rating::Again => new.due.secs == now.secs + 300 && new.state == old.state,
        Rating::Hard => new.due.secs == now.secs + 600 && new.state == old.state,
        Rating::Good | Rating::Easy => new.due.secs >= now.secs + 86_400
            && new.state == CardState::Review,
    }
    &&& old.state == CardState::Review ==> match r {
        Rating::Again => new.due.secs == now.secs + 300 && new.state == CardState::Relearning,
        Rating::Hard | Rating::Good | Rating::Easy => new.due.secs >= now.secs + 86_400
            && new.state == CardState::Review,
    }
}

/// One rs-fsrs review (`FSRS::new(params).next(card, now, rating)`: its card, and the rating its
/// review log records as applied) under the scheduler's
/// parameters with their `seed` field set to `seed` (rs-fsrs then sets its own seed for the
/// fuzz of this review). The contract states the facts above; the new
/// memory state (stability, difficulty and intervals after the first review) is computed by
/// rs-fsrs in floating point and is not stated beyond them.
#[verifier::external_body]
fn fsrs_next(
    sched: &Scheduler,
    seed: &String,
    card: &StudyCard,
    rating: Rating,
    now: Timestamp,
) -> (c: StudyCard)
    requires
        now.wf(),
        now.secs <= REVIEW_SECS_LIMIT,
        card@.reps < i32::MAX,
        card@.lapses < i32::MAX,
        sched@.short_term,
        sched@.fuzz,
        1 <= sched@.maximum_interval <= 36500,
    ensures
        fsrs_review_facts(card@, rating, now, c@),
{
    let mut p = sched.params.clone();
    p.seed = rs_fsrs::Seed::new(seed.clone());
    let at = DateTime::from_timestamp(now.secs, now.nanos).unwrap();
    let r = match rating {
        Rating::Again => rs_fsrs::Rating::Again, Rating::Hard => rs_fsrs::Rating::Hard,
        Rating::Good => rs_fsrs::Rating::Good, Rating::Easy => rs_fsrs::Rating::Easy,
    };
    let info = rs_fsrs::FSRS::new(p).next(card.memory.clone(), at, r);
    let applied = match info.review_log.rating {
        rs_fsrs::Rating::Again => Rating::Again, rs_fsrs::Rating::Hard => Rating::Hard,
        rs_fsrs::Rating::Good => Rating::Good, rs_fsrs::Rating::Easy => Rating::Easy,
    };
    from_fsrs(info.card, Some(applied))
}

/// The plain settings of a scheduler: the longest interval in days, whether the short-term
/// learning steps are on, and whether intervals are fuzzed.
pub struct SchedulerView {
    pub maximum_interval: i32,
    pub short_term: bool,
    pub fuzz: bool,
}

/// A fresh card due at `now`: no reviews, no lapses, no stability, state `New`, last reviewed
/// when it was made.
pub open spec fn fresh_card_view(now: Timestamp) -> CardView {
    CardView {
        due: now,
        reps: 0,
        stability_days: 0,
        state: CardState::New,
        lapses: 0,
        last_review: now,
        last_rating: None,
    }
}

/// MnemoKanji's scheduler settings: the rs-fsrs defaults (longest interval 36500 days,
/// short-term steps on) with fuzz switched on.
pub open spec fn standard_settings() -> SchedulerView {
    SchedulerView { maximum_interval: 36500, short_term: true, fuzz: true }
}

/// The FSRS scheduler with MnemoKanji's parameters, and its plain settings read beside them.
pub struct Scheduler {
    maximum_interval: i32,
    short_term: bool,
    fuzz: bool,
    params: rs_fsrs::Parameters,
}

impl View for Scheduler {
    type V = SchedulerView;

    closed spec fn view(&self) -> SchedulerView {
        SchedulerView { maximum_interval: self.maximum_interval, short_term: self.short_term, fuzz: self.fuzz }
    }
}

impl Scheduler {
    /// The scheduler at the recommended desired retention of 0.9: the rs-fsrs default
    /// parameters with fuzz switched on.
    pub fn new() -> (s: Scheduler)
        ensures
            s@ == standard_settings(),
    {
        fsrs_parameters(true)
    }

    /// A fresh card, due immediately at `now` (an introduction includes the first test).
    pub fn new_card(now: Timestamp) -> (c: StudyCard)
        requires
            now.wf(),
        ensures
            c@ == fresh_card_view(now),
    {
        fsrs_new_card(now)
    }

    /// Apply one rating and return the updated card. Intervals of several days are fuzzed, so
    /// cards added on the same day do not all pile onto the same future day.
    pub fn review(
        &self,
        kanji_id: i64,
        kind: TrackKind,
        card: &StudyCard,
        rating: Rating,
        now: Timestamp,
    ) -> (c: StudyCard)
        requires
            now.wf(),
            now.secs <= REVIEW_SECS_LIMIT,
            card@.reps < i32::MAX,
            card@.lapses < i32::MAX,
            self@ == standard_settings(),
        ensures
            fsrs_review_facts(card@, rating, now, c@),
    {
        let seed = fuzz_seed(kanji_id, kind);
        fsrs_next(self, &seed, card, rating, now)
    }
}

/// A card has reached the maturity gate: stability of at least `mature_days` whole days
/// and at least two reviews (so one confident first answer cannot trip it).
pub open spec fn spec_mature(c: CardView, mature_days: u32) -> bool {
    c.stability_days >= mature_days && c.reps >= 2
}

/// Whether a comprehension card has reached the maturity gate.
pub fn comprehension_mature(card: &StudyCard, mature_days: u32) -> (m: bool)
    ensures
        m == spec_mature(card@, mature_days),
{
    card.stability_days() >= mature_days as u64 && card.reps() >= 2
}

} // verus!
