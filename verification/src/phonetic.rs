//! Phonetic components (sound markers): a phono-semantic kanji carries a component that marks
//! its on'yomi (寺 marks ジ in 時 and 持). A kanji dictionary records that component per kanji,
//! in the fourth tab-separated column of its lines.

use vstd::prelude::*;
use crate::text::{spec_split, split_char};
use crate::pipeline::{contains_str, vec_contains_str};

verus! {

/// What a dictionary line gives: its kanji (the first tab-separated field) and phonetic
/// component (the fourth), when the line has four fields and the fourth is not empty.
pub open spec fn spec_phonetic_line(line: Seq<char>) -> Option<(Seq<char>, Seq<char>)> {
    let f = spec_split(line, '\t');
    if f.len() >= 4 && f[3].len() > 0 {
        Some((f[0], f[3]))
    } else {
        None
    }
}

/// The (kanji, phonetic component) entries of the first `n` lines, for the selected kanji, in
/// line order.
pub open spec fn phonetic_entries(lines: Seq<String>, selected: Seq<String>, n: int) -> Seq<(Seq<char>, Seq<char>)>
    decreases n,
{
    if n <= 0 {
        Seq::empty()
    } else {
        let prev = phonetic_entries(lines, selected, n - 1);
        match spec_phonetic_line(lines[n - 1]@) {
            Some(e) => if contains_str(selected, e.0) {
                prev.push(e)
            } else {
                prev
            },
            None => prev,
        }
    }
}

/// The phonetic component of `g`: that of its last entry (a later line replaces an earlier one).
pub open spec fn phonetic_for(entries: Seq<(Seq<char>, Seq<char>)>, g: Seq<char>) -> Option<Seq<char>>
    decreases entries.len(),
{
    if entries.len() == 0 {
        None
    } else if entries.last().0 == g {
        Some(entries.last().1)
    } else {
        phonetic_for(entries.drop_last(), g)
    }
}

/// Entries as values.
pub open spec fn entries_view(e: Seq<(String, String)>) -> Seq<(Seq<char>, Seq<char>)> {
    e.map_values(|x: (String, String)| (x.0@, x.1@))
}

/// Parse one dictionary line.
pub fn parse_phonetic_line(line: &str) -> (r: Option<(String, String)>)
    ensures
        match r {
            Some(e) => spec_phonetic_line(line@) == Some((e.0@, e.1@)),
            None => spec_phonetic_line(line@) is None,
        },
{
    let f = split_char(line, '\t');
    proof {
        assert(f@.map_values(|x: String| x@).len() == f@.len());
    }
    if f.len() >= 4 && !f[3].as_str().is_empty() {
        proof {
            assert(f@.map_values(|x: String| x@)[0] == f@[0]@);
            assert(f@.map_values(|x: String| x@)[3] == f@[3]@);
        }
        Some((f[0].clone(), f[3].clone()))
    } else {
        proof {
            if f@.len() >= 4 {
                assert(f@.map_values(|x: String| x@)[3] == f@[3]@);
            }
        }
        None
    }
}

/// The phonetic components of the selected kanji, one entry per dictionary line that gives one
/// (see `phonetic_entries`; `phonetic_for` reads the map they describe).
pub fn build(lines: &Vec<String>, selected: &Vec<String>) -> (r: Vec<(String, String)>)
    ensures
        entries_view(r@) == phonetic_entries(lines@, selected@, lines@.len() as int),
{
    let mut r: Vec<(String, String)> = Vec::new();
    let mut i: usize = 0;
    while i < lines.len()
        invariant
            i <= lines@.len(),
            entries_view(r@) == phonetic_entries(lines@, selected@, i as int),
        decreases lines.len() - i,
    {
        match parse_phonetic_line(lines[i].as_str()) {
            Some(e) => {
                if vec_contains_str(selected, &e.0) {
                    let ghost old_r = r@;
                    r.push(e);
                    proof {
                        assert(entries_view(r@) =~= entries_view(old_r).push((e.0@, e.1@)));
                    }
                }
            },
            None => {},
        }
        i = i + 1;
    }
    r
}

/// The phonetic component of `g` in the built entries.
pub fn phonetic_of(entries: &Vec<(String, String)>, g: &String) -> (r: Option<String>)
    ensures
        match r {
            Some(p) => phonetic_for(entries_view(entries@), g@) == Some(p@),
            None => phonetic_for(entries_view(entries@), g@) is None,
        },
{
    let ghost ev = entries_view(entries@);
    let mut i: usize = entries.len();
    assert(ev.take(ev.len() as int) =~= ev);
    while i > 0
        invariant
            i <= entries@.len() == ev.len(),
            ev == entries_view(entries@),
            phonetic_for(ev, g@) == phonetic_for(ev.take(i as int), g@),
        decreases i,
    {
        proof {
            assert(ev.take(i as int).drop_last() =~= ev.take(i - 1));
            assert(ev.take(i as int).last() == ev[i - 1]);
        }
        if crate::text::str_eq(entries[i - 1].0.as_str(), g.as_str()) {
            return Some(entries[i - 1].1.clone());
        }
        i = i - 1;
    }
    None
}

} // verus!
