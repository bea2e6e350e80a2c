//! Core domain types shared by the scheduler and the session engine.

use vstd::prelude::*;
use crate::text::str_eq;

verus! {

/// A kanji is one concept but is scheduled on two independent tracks.
#[derive(Clone, Copy, Debug, PartialEq, Eq, Hash, Structural)]
pub enum TrackKind {
    /// Input skills: kanji to meaning, kanji to reading (gates level progression).
    Comprehension,
    /// Output skills: meaning to written kanji, in-context cloze (never gates).
    Production,
}

/// The stored name of a track kind.
pub open spec fn kind_name(k: TrackKind) -> Seq<char> {
    match k {
        TrackKind::Comprehension => "comprehension"@,
        TrackKind::Production => "production"@,
    }
}

impl TrackKind {
    /// The stored name of this kind: `"comprehension"` or `"production"`.
    pub fn as_str(self) -> (s: &'static str)
        ensures
            s@ == kind_name(self),
    {
        match self {
            TrackKind::Comprehension => "comprehension",
            TrackKind::Production => "production",
        }
    }

    /// Parse a stored kind name; any other text is refused.
    pub fn parse(s: &str) -> (r: Result<TrackKind, ()>)
        ensures
            r matches Ok(k) ==> kind_name(k) == s@,
            r is Err <==> (s@ != kind_name(TrackKind::Comprehension) && s@ != kind_name(
                TrackKind::Production,
            )),
    {
        if str_eq(s, "comprehension") {
            Ok(TrackKind::Comprehension)
        } else if str_eq(s, "production") {
            Ok(TrackKind::Production)
        } else {
            Err(())
        }
    }
}

impl std::str::FromStr for TrackKind {
    type Err = ();

    /// Parse a stored kind name (see `TrackKind::parse`).
    fn from_str(s: &str) -> (r: Result<TrackKind, ()>)
        ensures
            r matches Ok(k) ==> kind_name(k) == s@,
            r is Err <==> (s@ != kind_name(TrackKind::Comprehension) && s@ != kind_name(
                TrackKind::Production,
            )),
    {
        TrackKind::parse(s)
    }
}

/// Reading a kind's stored name back gives the same kind.
pub proof fn lemma_kind_name_round_trip(k: TrackKind, j: TrackKind)
    ensures
        kind_name(k) == kind_name(j) <==> k == j,
{
    reveal_strlit("comprehension");
    reveal_strlit("production");
    if k != j {
        assert(kind_name(k).len() != kind_name(j).len());
    }
}

/// A self-graded answer, from worst to best.
#[derive(Clone, Copy, Debug, PartialEq, Eq, Hash, Structural)]
pub enum Rating {
    Again,
    Hard,
    Good,
    Easy,
}

/// The grade of a rating: 1 (Again) to 4 (Easy).
pub open spec fn rating_value(r: Rating) -> int {
    match r {
        Rating::Again => 1,
        Rating::Hard => 2,
        Rating::Good => 3,
        Rating::Easy => 4,
    }
}

impl Rating {
    /// The grade of this rating: 1 (Again) to 4 (Easy).
    pub fn value(self) -> (v: u8)
        ensures
            v == rating_value(self),
    {
        match self {
            Rating::Again => 1,
            Rating::Hard => 2,
            Rating::Good => 3,
            Rating::Easy => 4,
        }
    }
}

/// Whether `r` is a worst (lowest-grade) rating of `rs`.
pub open spec fn is_worst(rs: Seq<Rating>, r: Rating) -> bool {
    &&& rs.contains(r)
    &&& forall|i: int| 0 <= i < rs.len() ==> rating_value(r) <= rating_value(#[trigger] rs[i])
}

/// The worst of several per-mode ratings (the single rating a review submits), or `None`
/// when there are none.
pub fn worst_rating(ratings: &[Rating]) -> (w: Option<Rating>)
    ensures
        ratings@.len() == 0 <==> w is None,
        w matches Some(r) ==> is_worst(ratings@, r),
{
    if ratings.len() == 0 {
        return None;
    }
    let mut best = ratings[0];
    let mut i: usize = 1;
    assert(ratings@.subrange(0, 1)[0] == best);
    while i < ratings.len()
        invariant
            1 <= i <= ratings.len(),
            ratings@.subrange(0, i as int).contains(best),
            forall|j: int| 0 <= j < i ==> rating_value(best) <= rating_value(#[trigger] ratings@[j]),
        decreases ratings.len() - i,
    {
        if ratings[i].value() < best.value() {
            best = ratings[i];
        }
        proof {
            let s0 = ratings@.subrange(0, i as int);
            let s1 = ratings@.subrange(0, i + 1);
            assert(s1 == s0.push(ratings@[i as int]));
            if best == ratings@[i as int] {
                assert(s1[i as int] == best);
            } else {
                let k = choose|k: int| 0 <= k < s0.len() && s0[k] == best;
                assert(s1[k] == best);
            }
        }
        i = i + 1;
    }
    assert(ratings@.subrange(0, ratings@.len() as int) == ratings@);
    Some(best)
}

} // verus!
