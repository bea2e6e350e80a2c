//! Dominant-reading derivation and in-context vocabulary selection.
//!
//! From common dictionary words (with their per-kanji kana alignment) the library (a) derives
//! each kanji's dominant reading by tallying which stored reading it contributes across common
//! words, and (b) selects a handful of common words per kanji for in-context practice, most
//! basic first.

use vstd::prelude::*;
use crate::kana::{
    spec_is_kanji, is_kanji, spec_reading_stem, reading_stem, spec_context_forms, context_forms,
    spec_hira, hira,
};
use crate::kana::{spec_level_num, level_num};
use crate::text::{chars_of, chars_eq, str_eq, spec_first_token, first_token};
use crate::content::opt_view;
use crate::text::{lex_lt, lex_less, lemma_lex_irreflexive, lemma_lex_transitive, lemma_lex_total};
use crate::order::{sorted_stable, stable_sort_indices, lemma_sorted_stable_sorted,
    lemma_sorted_elems, lemma_sorted_contains};

verus! {

/// A selected vocabulary word and the kanji parts it exemplifies.
pub struct VocabEntry {
    pub surface: String,
    pub reading: String,
    pub gloss: String,
    /// (kanji glyph, kana the kanji contributes in this word) per the furigana split.
    pub kanji_parts: Vec<(String, String)>,
}

/// The derivation's result: the dominant reading of each kanji and the selected words.
pub struct VocabData {
    /// kanji glyph, with the (stored reading text, kind) chosen as dominant.
    pub dominant: Vec<(String, (String, String))>,
    pub vocab: Vec<VocabEntry>,
}

/// A written form of a dictionary word.
pub struct KanjiForm {
    pub text: Option<String>,
    pub common: bool,
}

/// A kana reading of a dictionary word, possibly restricted to some written forms
/// (`"*"` stands for all of them).
pub struct KanaForm {
    pub text: Option<String>,
    pub common: bool,
    pub applies_to: Option<Vec<String>>,
}

/// A dictionary word: its written forms, readings, and first English gloss.
pub struct JmWord {
    pub kanji: Vec<KanjiForm>,
    pub kana: Vec<KanaForm>,
    pub gloss: String,
}

/// The kana alignment of one (written form, reading) pair: per segment, the text and the kana
/// over it (`None` for okurigana).
pub struct FuriganaEntry {
    pub text: String,
    pub reading: String,
    pub segments: Vec<(String, Option<String>)>,
}

// ---------------------------------------------------------------------------------------------
// One word.
// ---------------------------------------------------------------------------------------------

/// The first common written form that has a text: the word's surface.
pub open spec fn spec_surface(forms: Seq<KanjiForm>) -> Option<Seq<char>>
    decreases forms.len(),
{
    if forms.len() == 0 {
        None
    } else if forms[0].common {
        match forms[0].text {
            Some(t) => Some(t@),
            None => None,
        }
    } else {
        spec_surface(forms.drop_first())
    }
}

/// The word's surface (its first common written form).
pub fn surface_of(forms: &Vec<KanjiForm>) -> (r: Option<String>)
    ensures
        match r {
            Some(t) => spec_surface(forms@) == Some(t@),
            None => spec_surface(forms@) is None,
        },
{
    let mut i: usize = 0;
    assert(forms@.skip(0) =~= forms@);
    while i < forms.len()
        invariant
            i <= forms@.len(),
            spec_surface(forms@) == spec_surface(forms@.skip(i as int)),
        decreases forms.len() - i,
    {
        proof {
            assert(forms@.skip(i as int).drop_first() =~= forms@.skip(i + 1));
            assert(forms@.skip(i as int)[0] == forms@[i as int]);
        }
        if forms[i].common {
            return match &forms[i].text {
                Some(t) => Some(t.clone()),
                None => None,
            };
        }
        i = i + 1;
    }
    None
}

/// A kana form applies to `surface`: unrestricted, or restricted to a list holding `"*"` or
/// the surface itself.
pub open spec fn applies(k: KanaForm, surface: Seq<char>) -> bool {
    match k.applies_to {
        None => true,
        Some(list) => exists|i: int| 0 <= i < list@.len() && (list@[i]@ == "*"@ || list@[i]@ == surface),
    }
}

/// The first common kana form that applies to `surface` and has a text: the word's reading.
pub open spec fn spec_reading(forms: Seq<KanaForm>, surface: Seq<char>) -> Option<Seq<char>>
    decreases forms.len(),
{
    if forms.len() == 0 {
        None
    } else if forms[0].common && applies(forms[0], surface) && forms[0].text is Some {
        Some(forms[0].text->0@)
    } else {
        spec_reading(forms.drop_first(), surface)
    }
}

fn applies_exec(k: &KanaForm, surface: &String) -> (b: bool)
    ensures
        b == applies(*k, surface@),
{
    match &k.applies_to {
        None => true,
        Some(list) => {
            let mut i: usize = 0;
            while i < list.len()
                invariant
                    i <= list@.len(),
                    k.applies_to == Some(*list),
                    forall|j: int| 0 <= j < i ==> !(list@[j]@ == "*"@ || list@[j]@ == surface@),
                decreases list.len() - i,
            {
                if str_eq(list[i].as_str(), "*") || str_eq(list[i].as_str(), surface.as_str()) {
                    assert(list@[i as int]@ == "*"@ || list@[i as int]@ == surface@);
                    assert(k.applies_to->0@[i as int] == list@[i as int]);
                    assert(applies(*k, surface@));
                    return true;
                }
                i = i + 1;
            }
            false
        },
    }
}

/// The word's reading for `surface`.
pub fn reading_of(forms: &Vec<KanaForm>, surface: &String) -> (r: Option<String>)
    ensures
        match r {
            Some(t) => spec_reading(forms@, surface@) == Some(t@),
            None => spec_reading(forms@, surface@) is None,
        },
{
    let mut i: usize = 0;
    assert(forms@.skip(0) =~= forms@);
    while i < forms.len()
        invariant
            i <= forms@.len(),
            spec_reading(forms@, surface@) == spec_reading(forms@.skip(i as int), surface@),
        decreases forms.len() - i,
    {
        proof {
            assert(forms@.skip(i as int).drop_first() =~= forms@.skip(i + 1));
            assert(forms@.skip(i as int)[0] == forms@[i as int]);
        }
        let k = &forms[i];
        if k.common && applies_exec(k, surface) {
            match &k.text {
                Some(t) => {
                    return Some(t.clone());
                },
                None => {},
            }
        }
        i = i + 1;
    }
    None
}

/// Whether some character of `s`, as a one-character string, is in `set`.
pub open spec fn any_char_in(s: Seq<char>, set: Seq<String>) -> bool {
    exists|i: int| 0 <= i < s.len() && contains_view(set, seq![s[i]])
}

/// `g` is one of the strings of `set`.
pub open spec fn contains_view(set: Seq<String>, g: Seq<char>) -> bool {
    exists|i: int| 0 <= i < set.len() && set[i]@ == g
}

/// Whether `g` (as characters) is one of the strings of `set`.
pub fn set_contains(set: &Vec<String>, g: &Vec<char>) -> (b: bool)
    ensures
        b == contains_view(set@, g@),
{
    let mut i: usize = 0;
    while i < set.len()
        invariant
            i <= set@.len(),
            forall|j: int| 0 <= j < i ==> set@[j]@ != g@,
        decreases set.len() - i,
    {
        let c = chars_of(set[i].as_str());
        if chars_eq(&c, g) {
            return true;
        }
        i = i + 1;
    }
    false
}

/// Whether some character of `s` is in `set`.
pub fn has_char_in(s: &Vec<char>, set: &Vec<String>) -> (b: bool)
    ensures
        b == any_char_in(s@, set@),
{
    let mut i: usize = 0;
    while i < s.len()
        invariant
            i <= s@.len(),
            forall|j: int| 0 <= j < i ==> !contains_view(set@, seq![s@[j]]),
        decreases s.len() - i,
    {
        let one: Vec<char> = vec![s[i]];
        assert(one@ =~= seq![s@[i as int]]);
        if set_contains(set, &one) {
            return true;
        }
        i = i + 1;
    }
    false
}


// ---------------------------------------------------------------------------------------------
// Readings inside words.
// ---------------------------------------------------------------------------------------------

/// A kanji's stored readings, as `(kind, reading)` pairs (`kind` is `"on"` or `"kun"`).
pub struct StoredReadings {
    pub glyph: String,
    pub readings: Vec<(String, String)>,
}

/// The stored readings of glyph `g` (the first entry for it), if it is one of the selected kanji.
pub open spec fn stored_for(stored: Seq<StoredReadings>, n5: Seq<String>, g: Seq<char>) -> Option<int> {
    if contains_view(n5, g) && exists|i: int| 0 <= i < stored.len() && stored[i].glyph@ == g {
        Some(choose|i: int| 0 <= i < stored.len() && stored[i].glyph@ == g && forall|j: int| 0 <= j < i ==> stored[j].glyph@ != g)
    } else {
        None
    }
}

/// The stored reading `rd` can appear as kana `rtn` (already folded to hiragana) in a word:
/// some context form of its non-empty stem matches.
pub open spec fn reading_matches(rd: Seq<char>, rtn: Seq<char>) -> bool {
    let stem = spec_reading_stem(rd);
    &&& stem.len() > 0
    &&& exists|f: int| 0 <= f < spec_context_forms(stem).len() && spec_hira(spec_context_forms(stem)[f]) == rtn
}

/// The first of `readings` (from position `from`) that can appear as `rtn`.
pub open spec fn first_matching(readings: Seq<(String, String)>, rtn: Seq<char>, from: int) -> Option<int>
    decreases readings.len() - from,
{
    if from >= readings.len() || from < 0 {
        None
    } else if reading_matches(readings[from].1@, rtn) {
        Some(from)
    } else {
        first_matching(readings, rtn, from + 1)
    }
}

/// The `(kind, reading)` a kanji contributes to a word where it is read `rt`: the first of its
/// stored readings with a context form equal to `rt` folded to hiragana.
pub open spec fn spec_matched_reading(
    stored: Seq<StoredReadings>,
    n5: Seq<String>,
    g: Seq<char>,
    rt: Seq<char>,
) -> Option<(Seq<char>, Seq<char>)> {
    match stored_for(stored, n5, g) {
        None => None,
        Some(i) => match first_matching(stored[i].readings@, spec_hira(rt), 0) {
            None => None,
            Some(k) => Some((stored[i].readings@[k].0@, stored[i].readings@[k].1@)),
        },
    }
}

fn find_stored(stored: &Vec<StoredReadings>, n5: &Vec<String>, g: &Vec<char>) -> (r: Option<usize>)
    ensures
        match r {
            Some(i) => stored_for(stored@, n5@, g@) == Some(i as int) && i < stored@.len(),
            None => stored_for(stored@, n5@, g@) is None,
        },
{
    if !set_contains(n5, g) {
        return None;
    }
    let mut i: usize = 0;
    while i < stored.len()
        invariant
            i <= stored@.len(),
            contains_view(n5@, g@),
            forall|j: int| 0 <= j < i ==> stored@[j].glyph@ != g@,
        decreases stored.len() - i,
    {
        let sg = chars_of(stored[i].glyph.as_str());
        if chars_eq(&sg, g) {
            proof {
                let c = choose|c: int| 0 <= c < stored@.len() && stored@[c].glyph@ == g@ && forall|j: int|
                    0 <= j < c ==> stored@[j].glyph@ != g@;
                if c < i {
                } else if c > i {
                    assert(stored@[i as int].glyph@ == g@);
                }
            }
            return Some(i);
        }
        i = i + 1;
    }
    None
}

fn matches_exec(rd: &String, rtn: &Vec<char>) -> (b: bool)
    ensures
        b == reading_matches(rd@, rtn@),
{
    let stem_s = reading_stem(rd.as_str());
    let stem = chars_of(stem_s.as_str());
    if stem.len() == 0 {
        return false;
    }
    let forms = context_forms(&stem);
    let mut f: usize = 0;
    while f < forms.len()
        invariant
            f <= forms@.len(),
            stem@ == spec_reading_stem(rd@),
            stem@.len() > 0,
            forms@.len() == spec_context_forms(stem@).len(),
            forall|i: int| 0 <= i < forms@.len() ==> (#[trigger] forms@[i])@ == spec_context_forms(stem@)[i],
            forall|i: int| 0 <= i < f ==> spec_hira(spec_context_forms(stem@)[i]) != rtn@,
        decreases forms.len() - f,
    {
        let h = hira(&forms[f]);
        if chars_eq(&h, rtn) {
            assert(spec_hira(spec_context_forms(stem@)[f as int]) == rtn@);
            return true;
        }
        f = f + 1;
    }
    false
}

/// The `(kind, reading)` a kanji contributes to a word where it is read `rt`.
pub fn matched_reading(stored: &Vec<StoredReadings>, n5: &Vec<String>, g: &Vec<char>, rt: &Vec<char>) -> (r: Option<(String, String)>)
    ensures
        match r {
            Some(p) => spec_matched_reading(stored@, n5@, g@, rt@) == Some((p.0@, p.1@)),
            None => spec_matched_reading(stored@, n5@, g@, rt@) is None,
        },
{
    let i = match find_stored(stored, n5, g) {
        Some(i) => i,
        None => return None,
    };
    let rtn = hira(rt);
    let readings = &stored[i].readings;
    let mut k: usize = 0;
    assert(stored_for(stored@, n5@, g@) == Some(i as int));
    while k < readings.len()
        invariant
            k <= readings@.len(),
            i < stored@.len(),
            stored_for(stored@, n5@, g@) == Some(i as int),
            readings@ == stored@[i as int].readings@,
            rtn@ == spec_hira(rt@),
            first_matching(readings@, rtn@, 0) == first_matching(readings@, rtn@, k as int),
        decreases readings.len() - k,
    {
        if matches_exec(&readings[k].1, &rtn) {
            proof {
                assert(first_matching(readings@, rtn@, k as int) == Some(k as int));
            }
            return Some((readings[k].0.clone(), readings[k].1.clone()));
        }
        proof {
            assert(first_matching(readings@, rtn@, k as int) == first_matching(readings@, rtn@, k + 1));
        }
        k = k + 1;
    }
    None
}


// ---------------------------------------------------------------------------------------------
// Kanji parts of a word, and the readings they contribute.
// ---------------------------------------------------------------------------------------------

/// The furigana entry of `(surface, reading)`: the last one listed for that pair.
pub open spec fn furigana_for(fur: Seq<FuriganaEntry>, surface: Seq<char>, reading: Seq<char>) -> Option<int>
    decreases fur.len(),
{
    if fur.len() == 0 {
        None
    } else if fur.last().text@ == surface && fur.last().reading@ == reading {
        Some(fur.len() - 1)
    } else {
        furigana_for(fur.drop_last(), surface, reading)
    }
}

/// A segment names one selected kanji read with kana: a single character that is one of the
/// selected kanji, with kana over it.
pub open spec fn is_kanji_part(seg: (String, Option<String>), n5: Seq<String>) -> bool {
    &&& seg.1 is Some
    &&& seg.0@.len() == 1
    &&& contains_view(n5, seg.0@)
}

/// The kanji parts (glyph, kana) among the first `n` segments.
pub open spec fn parts_upto(segs: Seq<(String, Option<String>)>, n5: Seq<String>, n: int) -> Seq<(Seq<char>, Seq<char>)>
    decreases n,
{
    if n <= 0 {
        Seq::empty()
    } else {
        let r = parts_upto(segs, n5, n - 1);
        if is_kanji_part(segs[n - 1], n5) {
            r.push((segs[n - 1].0@, segs[n - 1].1->0@))
        } else {
            r
        }
    }
}

/// A tally entry: a kanji, and the (kind, reading) it contributed to a word.
pub type Hit = (Seq<char>, Seq<char>, Seq<char>);

/// The readings contributed by the first `n` parts.
pub open spec fn hits_of(
    parts: Seq<(Seq<char>, Seq<char>)>,
    stored: Seq<StoredReadings>,
    n5: Seq<String>,
    n: int,
) -> Seq<Hit>
    decreases n,
{
    if n <= 0 {
        Seq::empty()
    } else {
        let r = hits_of(parts, stored, n5, n - 1);
        match spec_matched_reading(stored, n5, parts[n - 1].0, parts[n - 1].1) {
            Some(kr) => r.push((parts[n - 1].0, kr.0, kr.1)),
            None => r,
        }
    }
}

/// The kanji parts of the word `(surface, reading)` per its furigana entry (none without one).
pub open spec fn spec_word_parts(
    fur: Seq<FuriganaEntry>,
    n5: Seq<String>,
    surface: Seq<char>,
    reading: Seq<char>,
) -> Seq<(Seq<char>, Seq<char>)> {
    match furigana_for(fur, surface, reading) {
        Some(i) => parts_upto(fur[i].segments@, n5, fur[i].segments@.len() as int),
        None => Seq::empty(),
    }
}

fn find_furigana(fur: &Vec<FuriganaEntry>, surface: &String, reading: &String) -> (r: Option<usize>)
    ensures
        match r {
            Some(i) => furigana_for(fur@, surface@, reading@) == Some(i as int) && i < fur@.len(),
            None => furigana_for(fur@, surface@, reading@) is None,
        },
{
    let mut i: usize = fur.len();
    assert(fur@.take(fur@.len() as int) =~= fur@);
    while i > 0
        invariant
            i <= fur@.len(),
            furigana_for(fur@, surface@, reading@) == furigana_for(fur@.take(i as int), surface@, reading@),
        decreases i,
    {
        let e = &fur[i - 1];
        proof {
            assert(fur@.take(i as int).drop_last() =~= fur@.take(i - 1));
            assert(fur@.take(i as int).last() == fur@[i - 1]);
        }
        if str_eq(e.text.as_str(), surface.as_str()) && str_eq(e.reading.as_str(), reading.as_str()) {
            return Some(i - 1);
        }
        i = i - 1;
    }
    None
}

/// The kanji parts of a word and the readings they contribute, in segment order.
pub fn word_parts(
    fur: &Vec<FuriganaEntry>,
    stored: &Vec<StoredReadings>,
    n5: &Vec<String>,
    surface: &String,
    reading: &String,
) -> (r: (Vec<(String, String)>, Vec<(String, String, String)>))
    ensures
        r.0@.len() == spec_word_parts(fur@, n5@, surface@, reading@).len(),
        forall|i: int| 0 <= i < r.0@.len() ==> ((#[trigger] r.0@[i]).0@, r.0@[i].1@) == spec_word_parts(fur@, n5@, surface@, reading@)[i],
        r.1@.len() == hits_of(spec_word_parts(fur@, n5@, surface@, reading@), stored@, n5@, r.0@.len() as int).len(),
        forall|i: int| 0 <= i < r.1@.len() ==> ((#[trigger] r.1@[i]).0@, r.1@[i].1@, r.1@[i].2@) == hits_of(
            spec_word_parts(fur@, n5@, surface@, reading@), stored@, n5@, r.0@.len() as int)[i],
{
    let mut parts: Vec<(String, String)> = Vec::new();
    let mut hits: Vec<(String, String, String)> = Vec::new();
    let ghost wp = spec_word_parts(fur@, n5@, surface@, reading@);
    let fi = match find_furigana(fur, surface, reading) {
        Some(i) => i,
        None => {
            return (parts, hits);
        },
    };
    let segs = &fur[fi].segments;
    let mut j: usize = 0;
    while j < segs.len()
        invariant
            j <= segs@.len(),
            segs@ == fur@[fi as int].segments@,
            wp == parts_upto(segs@, n5@, segs@.len() as int),
            parts@.len() == parts_upto(segs@, n5@, j as int).len(),
            forall|i: int| 0 <= i < parts@.len() ==> ((#[trigger] parts@[i]).0@, parts@[i].1@) == parts_upto(segs@, n5@, j as int)[i],
            hits@.len() == hits_of(parts_upto(segs@, n5@, j as int), stored@, n5@, parts@.len() as int).len(),
            forall|i: int| 0 <= i < hits@.len() ==> ((#[trigger] hits@[i]).0@, hits@[i].1@, hits@[i].2@) == hits_of(
                parts_upto(segs@, n5@, j as int), stored@, n5@, parts@.len() as int)[i],
        decreases segs.len() - j,
    {
        let ghost prev = parts_upto(segs@, n5@, j as int);
        let ghost next = parts_upto(segs@, n5@, j + 1);
        let seg = &segs[j];
        match &seg.1 {
            None => {},
            Some(rt) => {
                let ruby = chars_of(seg.0.as_str());
                if ruby.len() == 1 && set_contains(n5, &ruby) {
                    parts.push((seg.0.clone(), rt.clone()));
                    let rtc = chars_of(rt.as_str());
                    proof {
                        assert(next == prev.push((seg.0@, rt@)));
                        lemma_hits_prefix(prev, next, stored@, n5@, prev.len() as int);
                    }
                    match matched_reading(stored, n5, &ruby, &rtc) {
                        Some(kr) => {
                            hits.push((seg.0.clone(), kr.0, kr.1));
                        },
                        None => {},
                    }
                }
            },
        }
        proof {
            if !is_kanji_part(segs@[j as int], n5@) {
                assert(next == prev);
            }
            assert(next.len() == parts@.len());
            if next != prev {
                assert(hits_of(next, stored@, n5@, parts@.len() - 1) == hits_of(prev, stored@, n5@, prev.len() as int));
            }
        }
        j = j + 1;
    }
    (parts, hits)
}

proof fn lemma_hits_prefix(
    a: Seq<(Seq<char>, Seq<char>)>,
    b: Seq<(Seq<char>, Seq<char>)>,
    stored: Seq<StoredReadings>,
    n5: Seq<String>,
    n: int,
)
    requires
        0 <= n <= a.len(),
        n <= b.len(),
        forall|i: int| 0 <= i < n ==> a[i] == b[i],
    ensures
        hits_of(a, stored, n5, n) == hits_of(b, stored, n5, n),
    decreases n,
{
    if n > 0 {
        lemma_hits_prefix(a, b, stored, n5, n - 1);
    }
}


// ---------------------------------------------------------------------------------------------
// Ranking a word: JLPT level, frequency, appropriateness, and selection cost.
// ---------------------------------------------------------------------------------------------

/// A kanji's quota of words: a word is taken only while each of its kanji has fewer.
pub const MAX_VOCAB_PER_KANJI: usize = 6;

/// The frequency rank of `surface`: the index of the last line whose first token is the surface
/// (lower rank = more frequent).
pub open spec fn freq_rank(lines: Seq<String>, surface: Seq<char>) -> Option<int>
    decreases lines.len(),
{
    if lines.len() == 0 {
        None
    } else if spec_first_token(lines.last()@) == Some(surface) {
        Some(lines.len() - 1)
    } else {
        freq_rank(lines.drop_last(), surface)
    }
}

/// The easiest JLPT level (5 = N5 down to 1 = N1) that the `(surface, level label)` entries give
/// `surface`; labels other than `"N1"`..`"N5"` are ignored.
pub open spec fn jlpt_level(entries: Seq<(String, String)>, surface: Seq<char>) -> Option<u8>
    decreases entries.len(),
{
    if entries.len() == 0 {
        None
    } else {
        let prev = jlpt_level(entries.drop_last(), surface);
        let e = entries.last();
        if e.0@ == surface && spec_level_num(e.1@) is Some {
            let n = spec_level_num(e.1@)->0;
            match prev {
                Some(p) => if n > p { Some(n) } else { Some(p) },
                None => Some(n),
            }
        } else {
            prev
        }
    }
}

/// The JLPT level recorded for kanji `c` (the first entry for it).
pub open spec fn kanji_level(levels: Seq<(String, i64)>, c: char) -> Option<i64>
    decreases levels.len(),
{
    if levels.len() == 0 {
        None
    } else if levels[0].0@ == seq![c] {
        Some(levels[0].1)
    } else {
        kanji_level(levels.drop_first(), c)
    }
}

/// A word is appropriate for beginners: listed at N3 or easier, or unlisted with every kanji of
/// it at N5 to N3.
pub open spec fn appropriate(wl: Option<u8>, surface: Seq<char>, levels: Seq<(String, i64)>) -> bool {
    match wl {
        Some(l) => l > 2,
        None => forall|i: int| 0 <= i < surface.len() ==> !spec_is_kanji(#[trigger] surface[i])
            || (kanji_level(levels, surface[i]) matches Some(l) && 3 <= l <= 5),
    }
}

/// The JLPT tier of a word: N5 first, then N4, N3, and unlisted.
pub open spec fn tier(wl: Option<u8>) -> int {
    match wl {
        Some(5) => 0,
        Some(4) => 1,
        Some(3) => 2,
        _ => 3,
    }
}

/// The selection cost of a word: its JLPT tier first, then compounds before single-kanji
/// words, then its frequency rank (without one: a large base plus a length penalty).
pub open spec fn word_cost(wl: Option<u8>, surface_len: int, reading_len: int, freq: Option<int>) -> int {
    let base = match freq {
        Some(f) => f,
        None => 1_000_000 + surface_len * 10 + reading_len,
    };
    tier(wl) * 100_000_000 + if surface_len == 1 { 10_000_000 + base } else { base }
}

fn freq_lookup(lines: &Vec<String>, tokens: &Vec<Option<String>>, surface: &String) -> (r: Option<usize>)
    requires
        tokens@.len() == lines@.len(),
        forall|i: int| 0 <= i < lines@.len() ==> opt_view(#[trigger] tokens@[i]) == spec_first_token(lines@[i]@),
    ensures
        match r {
            Some(i) => freq_rank(lines@, surface@) == Some(i as int),
            None => freq_rank(lines@, surface@) is None,
        },
{
    let mut i: usize = tokens.len();
    assert(lines@.take(lines@.len() as int) =~= lines@);
    while i > 0
        invariant
            i <= tokens@.len() == lines@.len(),
            forall|k: int| 0 <= k < lines@.len() ==> opt_view(#[trigger] tokens@[k]) == spec_first_token(lines@[k]@),
            freq_rank(lines@, surface@) == freq_rank(lines@.take(i as int), surface@),
        decreases i,
    {
        proof {
            assert(lines@.take(i as int).drop_last() =~= lines@.take(i - 1));
            assert(lines@.take(i as int).last() == lines@[i - 1]);
            assert(opt_view(tokens@[i - 1]) == spec_first_token(lines@[i - 1]@));
        }
        match &tokens[i - 1] {
            Some(t) => {
                if str_eq(t.as_str(), surface.as_str()) {
                    return Some(i - 1);
                }
            },
            None => {},
        }
        i = i - 1;
    }
    None
}

/// The first token of every line.
fn line_tokens(lines: &Vec<String>) -> (r: Vec<Option<String>>)
    ensures
        r@.len() == lines@.len(),
        forall|i: int| 0 <= i < lines@.len() ==> opt_view(#[trigger] r@[i]) == spec_first_token(lines@[i]@),
{
    let mut r: Vec<Option<String>> = Vec::new();
    let mut i: usize = 0;
    while i < lines.len()
        invariant
            i <= lines@.len(),
            r@.len() == i,
            forall|k: int| 0 <= k < i ==> opt_view(#[trigger] r@[k]) == spec_first_token(lines@[k]@),
        decreases lines.len() - i,
    {
        let t = first_token(lines[i].as_str());
        r.push(t);
        i = i + 1;
    }
    r
}

/// The easiest JLPT level listed for `surface`.
pub fn jlpt_level_of(entries: &Vec<(String, String)>, surface: &String) -> (r: Option<u8>)
    ensures
        r == jlpt_level(entries@, surface@),
{
    let mut r: Option<u8> = None;
    let mut i: usize = 0;
    while i < entries.len()
        invariant
            i <= entries@.len(),
            r == jlpt_level(entries@.take(i as int), surface@),
        decreases entries.len() - i,
    {
        proof {
            assert(entries@.take(i + 1).drop_last() =~= entries@.take(i as int));
            assert(entries@.take(i + 1).last() == entries@[i as int]);
        }
        if str_eq(entries[i].0.as_str(), surface.as_str()) {
            match level_num(entries[i].1.as_str()) {
                Some(n) => {
                    r = match r {
                        Some(p) => if n > p { Some(n) } else { Some(p) },
                        None => Some(n),
                    };
                },
                None => {},
            }
        }
        i = i + 1;
    }
    assert(entries@.take(entries@.len() as int) =~= entries@);
    r
}

/// The JLPT level recorded for kanji `c`.
pub fn kanji_level_of(levels: &Vec<(String, i64)>, c: char) -> (r: Option<i64>)
    ensures
        r == kanji_level(levels@, c),
{
    let one: Vec<char> = vec![c];
    assert(one@ =~= seq![c]);
    let mut i: usize = 0;
    assert(levels@.skip(0) =~= levels@);
    while i < levels.len()
        invariant
            i <= levels@.len(),
            one@ == seq![c],
            kanji_level(levels@, c) == kanji_level(levels@.skip(i as int), c),
        decreases levels.len() - i,
    {
        proof {
            assert(levels@.skip(i as int).drop_first() =~= levels@.skip(i + 1));
            assert(levels@.skip(i as int)[0] == levels@[i as int]);
        }
        let g = chars_of(levels[i].0.as_str());
        if chars_eq(&g, &one) {
            return Some(levels[i].1);
        }
        i = i + 1;
    }
    None
}

/// Whether a word is appropriate for beginners.
pub fn is_appropriate(wl: Option<u8>, surface: &Vec<char>, levels: &Vec<(String, i64)>) -> (b: bool)
    ensures
        b == appropriate(wl, surface@, levels@),
{
    match wl {
        Some(l) => l > 2,
        None => {
            let mut i: usize = 0;
            while i < surface.len()
                invariant
                    wl is None,
                    i <= surface@.len(),
                    forall|k: int| 0 <= k < i ==> !spec_is_kanji(#[trigger] surface@[k])
                        || (kanji_level(levels@, surface@[k]) matches Some(l) && 3 <= l <= 5),
                decreases surface.len() - i,
            {
                if is_kanji(surface[i]) {
                    match kanji_level_of(levels, surface[i]) {
                        Some(l) => {
                            if !(3 <= l && l <= 5) {
                                return false;
                            }
                        },
                        None => {
                            return false;
                        },
                    }
                }
                i = i + 1;
            }
            true
        },
    }
}

/// The selection cost of a word (exact: no arithmetic here can overflow a `u128`).
pub fn cost_of(wl: Option<u8>, surface_len: usize, reading_len: usize, freq: Option<usize>) -> (c: u128)
    ensures
        c as int == word_cost(wl, surface_len as int, reading_len as int, match freq {
            Some(f) => Some(f as int),
            None => None,
        }),
{
    let tier: u128 = match wl {
        Some(5) => 0,
        Some(4) => 1,
        Some(3) => 2,
        _ => 3,
    };
    let base: u128 = match freq {
        Some(f) => f as u128,
        None => 1_000_000u128 + (surface_len as u128) * 10 + reading_len as u128,
    };
    tier * 100_000_000 + if surface_len == 1 { 10_000_000 + base } else { base }
}


// ---------------------------------------------------------------------------------------------
// Evaluating every word: the readings it contributes and whether it is a candidate.
// ---------------------------------------------------------------------------------------------

/// The dictionary sources of the derivation, already read and parsed.
pub struct VocabSources {
    /// The common dictionary words.
    pub words: Vec<JmWord>,
    /// The kana alignments of (written form, reading) pairs.
    pub furigana: Vec<FuriganaEntry>,
    /// The lines of the surface-frequency list, most frequent first (the first token of a line
    /// is a surface).
    pub freq_lines: Vec<String>,
    /// `(surface, level label)` entries of the JLPT word lists.
    pub jlpt: Vec<(String, String)>,
}

/// A candidate word as values: (cost, surface, reading, gloss, kanji parts).
pub type CandView = (int, Seq<char>, Seq<char>, Seq<char>, Seq<(Seq<char>, Seq<char>)>);

/// Kanji parts as values.
pub open spec fn parts_view(p: Seq<(String, String)>) -> Seq<(Seq<char>, Seq<char>)> {
    p.map_values(|x: (String, String)| (x.0@, x.1@))
}

/// Tally entries as values.
pub open spec fn hits_view(h: Seq<(String, String, String)>) -> Seq<Hit> {
    h.map_values(|x: (String, String, String)| (x.0@, x.1@, x.2@))
}

/// A candidate as values.
pub open spec fn cand_view(c: (u128, VocabEntry)) -> CandView {
    (c.0 as int, c.1.surface@, c.1.reading@, c.1.gloss@, parts_view(c.1.kanji_parts@))
}

/// What one dictionary word yields: the readings its kanji parts contribute to the tally, and,
/// when it passes every filter, the word as a candidate with its cost. A word yields nothing
/// without a common surface holding one of the selected kanji, or without a common reading for
/// it; it is no candidate without kanji parts, with a surface over four characters, or when it
/// is not appropriate for beginners.
pub open spec fn spec_eval_word(
    w: JmWord,
    n5: Seq<String>,
    stored: Seq<StoredReadings>,
    levels: Seq<(String, i64)>,
    src: VocabSources,
) -> (Seq<Hit>, Option<CandView>) {
    match spec_surface(w.kanji@) {
        None => (Seq::empty(), None),
        Some(surface) => if !any_char_in(surface, n5) {
            (Seq::empty(), None)
        } else {
            match spec_reading(w.kana@, surface) {
                None => (Seq::empty(), None),
                Some(reading) => {
                    let parts = spec_word_parts(src.furigana@, n5, surface, reading);
                    let hits = hits_of(parts, stored, n5, parts.len() as int);
                    let wl = jlpt_level(src.jlpt@, surface);
                    if parts.len() == 0 || surface.len() > 4 || !appropriate(wl, surface, levels) {
                        (hits, None)
                    } else {
                        let cost = word_cost(wl, surface.len() as int, reading.len() as int, freq_rank(src.freq_lines@, surface));
                        (hits, Some((cost, surface, reading, w.gloss@, parts)))
                    }
                },
            }
        },
    }
}

/// The tally entries of the first `n` words.
pub open spec fn all_hits(
    n5: Seq<String>,
    stored: Seq<StoredReadings>,
    levels: Seq<(String, i64)>,
    src: VocabSources,
    n: int,
) -> Seq<Hit>
    decreases n,
{
    if n <= 0 {
        Seq::empty()
    } else {
        all_hits(n5, stored, levels, src, n - 1) + spec_eval_word(src.words@[n - 1], n5, stored, levels, src).0
    }
}

/// The candidates among the first `n` words, in word order.
pub open spec fn all_cands(
    n5: Seq<String>,
    stored: Seq<StoredReadings>,
    levels: Seq<(String, i64)>,
    src: VocabSources,
    n: int,
) -> Seq<CandView>
    decreases n,
{
    if n <= 0 {
        Seq::empty()
    } else {
        let prev = all_cands(n5, stored, levels, src, n - 1);
        match spec_eval_word(src.words@[n - 1], n5, stored, levels, src).1 {
            Some(c) => prev.push(c),
            None => prev,
        }
    }
}

/// Copy kanji parts.
fn copy_parts(p: &Vec<(String, String)>) -> (r: Vec<(String, String)>)
    ensures
        parts_view(r@) == parts_view(p@),
{
    let mut r: Vec<(String, String)> = Vec::new();
    let mut i: usize = 0;
    while i < p.len()
        invariant
            i <= p@.len(),
            r@ == p@.take(i as int),
        decreases p.len() - i,
    {
        r.push((p[i].0.clone(), p[i].1.clone()));
        proof {
            assert(r@ =~= p@.take(i + 1));
        }
        i = i + 1;
    }
    assert(p@.take(p@.len() as int) =~= p@);
    r
}

/// Evaluate one word (see `spec_eval_word`); `tokens` are the first tokens of the frequency
/// lines.
fn eval_word(
    w: &JmWord,
    n5: &Vec<String>,
    stored: &Vec<StoredReadings>,
    levels: &Vec<(String, i64)>,
    src: &VocabSources,
    tokens: &Vec<Option<String>>,
) -> (r: (Vec<(String, String, String)>, Option<(u128, VocabEntry)>))
    requires
        tokens@.len() == src.freq_lines@.len(),
        forall|i: int| 0 <= i < src.freq_lines@.len() ==> opt_view(#[trigger] tokens@[i]) == spec_first_token(src.freq_lines@[i]@),
    ensures
        hits_view(r.0@) == spec_eval_word(*w, n5@, stored@, levels@, *src).0,
        match r.1 {
            Some(c) => spec_eval_word(*w, n5@, stored@, levels@, *src).1 == Some(cand_view(c))
                && c.0 < COST_BOUND,
            None => spec_eval_word(*w, n5@, stored@, levels@, *src).1 is None,
        },
{
    let no_hits: Vec<(String, String, String)> = Vec::new();
    proof {
        assert(hits_view(no_hits@) =~= Seq::<Hit>::empty());
    }
    let surface = match surface_of(&w.kanji) {
        Some(s) => s,
        None => return (no_hits, None),
    };
    let sc = chars_of(surface.as_str());
    if !has_char_in(&sc, n5) {
        return (no_hits, None);
    }
    let reading = match reading_of(&w.kana, &surface) {
        Some(r) => r,
        None => return (no_hits, None),
    };
    let (parts, hits) = word_parts(&src.furigana, stored, n5, &surface, &reading);
    let ghost sparts = spec_word_parts(src.furigana@, n5@, surface@, reading@);
    proof {
        assert(parts_view(parts@) =~= sparts);
        assert(hits_view(hits@) =~= hits_of(sparts, stored@, n5@, sparts.len() as int));
    }
    let wl = jlpt_level_of(&src.jlpt, &surface);
    if parts.len() == 0 || sc.len() > 4 || !is_appropriate(wl, &sc, levels) {
        return (hits, None);
    }
    let rc = chars_of(reading.as_str());
    let freq = freq_lookup(&src.freq_lines, tokens, &surface);
    let cost = cost_of(wl, sc.len(), rc.len(), freq);
    proof {
        lemma_cost_bound(wl, sc.len(), rc.len(), freq);
    }
    let entry = VocabEntry { surface, reading, gloss: w.gloss.clone(), kanji_parts: parts };
    (hits, Some((cost, entry)))
}


/// Every cost is below this bound (so that it fits a signed sort key).
pub const COST_BOUND: u128 = 0x800_0000_0000_0000_0000;

proof fn lemma_cost_bound(wl: Option<u8>, surface_len: usize, reading_len: usize, freq: Option<usize>)
    ensures
        word_cost(wl, surface_len as int, reading_len as int, match freq {
            Some(f) => Some(f as int),
            None => None,
        }) < COST_BOUND,
{
    assert(surface_len <= 0xffff_ffff_ffff_ffff && reading_len <= 0xffff_ffff_ffff_ffff);
}

// ---------------------------------------------------------------------------------------------
// Ordering the candidates: cheapest first, ties by surface.
// ---------------------------------------------------------------------------------------------

/// How many of the first `n` of `ss` come strictly before `x`.
pub open spec fn count_below(ss: Seq<Seq<char>>, x: Seq<char>, n: int) -> nat
    decreases n,
{
    if n <= 0 {
        0
    } else {
        count_below(ss, x, n - 1) + if lex_lt(ss[n - 1], x) { 1nat } else { 0nat }
    }
}

/// The candidates' surfaces.
pub open spec fn surfaces(cands: Seq<CandView>) -> Seq<Seq<char>> {
    cands.map_values(|c: CandView| c.1)
}

/// The sort key of each candidate: its cost, then the rank of its surface among all surfaces in
/// lexicographic order (so keys order as (cost, surface) do).
pub open spec fn cand_keys(cands: Seq<CandView>) -> Seq<(i128, u64)> {
    Seq::new(cands.len(), |i: int| (cands[i].0 as i128, count_below(surfaces(cands), cands[i].1, cands.len() as int) as u64))
}

/// The positions `0..n`.
pub open spec fn positions(n: int) -> Seq<usize> {
    Seq::new(n as nat, |i: int| i as usize)
}

/// The candidates' positions in selection order: by cost, ties by surface, then word order.
pub open spec fn cand_order(cands: Seq<CandView>) -> Seq<usize> {
    sorted_stable(positions(cands.len() as int), cand_keys(cands))
}

/// Ranks follow the lexicographic order of surfaces.
proof fn lemma_count_below_mono(ss: Seq<Seq<char>>, x: Seq<char>, y: Seq<char>, n: int)
    requires
        lex_lt(x, y),
        0 <= n <= ss.len(),
    ensures
        count_below(ss, x, n) <= count_below(ss, y, n),
        (exists|j: int| 0 <= j < n && ss[j] == x) ==> count_below(ss, x, n) < count_below(ss, y, n),
    decreases n,
{
    if n > 0 {
        lemma_count_below_mono(ss, x, y, n - 1);
        if lex_lt(ss[n - 1], x) {
            lemma_lex_transitive(ss[n - 1], x, y);
        }
        if ss[n - 1] == x {
            lemma_lex_irreflexive(x);
        }
        if exists|j: int| 0 <= j < n && ss[j] == x {
            let j = choose|j: int| 0 <= j < n && ss[j] == x;
            if j < n - 1 {
                assert(exists|j: int| 0 <= j < n - 1 && ss[j] == x);
            }
        }
    }
}

proof fn lemma_count_below_le(ss: Seq<Seq<char>>, x: Seq<char>, n: int)
    requires
        0 <= n,
    ensures
        count_below(ss, x, n) <= n,
    decreases n,
{
    if n > 0 {
        lemma_count_below_le(ss, x, n - 1);
    }
}

/// Candidate `a` sorts before candidate `b` exactly when its cost is lower, or its cost is the
/// same and its surface comes first.
pub proof fn lemma_keys_order(cands: Seq<CandView>, a: int, b: int)
    requires
        0 <= a < cands.len(),
        0 <= b < cands.len(),
        forall|i: int| 0 <= i < cands.len() ==> 0 <= (#[trigger] cands[i]).0 < COST_BOUND,
        cands.len() <= u64::MAX,
    ensures
        crate::order::pair_le(cand_keys(cands)[a], cand_keys(cands)[b]) <==> (cands[a].0 < cands[b].0
            || (cands[a].0 == cands[b].0 && !lex_lt(cands[b].1, cands[a].1))),
{
    let ss = surfaces(cands);
    let n = cands.len() as int;
    assert(ss[a] == cands[a].1 && ss[b] == cands[b].1);
    lemma_count_below_le(ss, cands[a].1, n);
    lemma_count_below_le(ss, cands[b].1, n);
    lemma_lex_total(cands[a].1, cands[b].1);
    if lex_lt(cands[a].1, cands[b].1) {
        lemma_count_below_mono(ss, cands[a].1, cands[b].1, n);
        lemma_lex_irreflexive(cands[a].1);
        if lex_lt(cands[b].1, cands[a].1) {
            lemma_lex_transitive(cands[a].1, cands[b].1, cands[a].1);
        }
    } else if lex_lt(cands[b].1, cands[a].1) {
        lemma_count_below_mono(ss, cands[b].1, cands[a].1, n);
    }
}

/// The selection order of the candidates.
fn order_candidates(cands: &Vec<(u128, VocabEntry)>) -> (order: Vec<usize>)
    requires
        forall|i: int| 0 <= i < cands@.len() ==> (#[trigger] cands@[i]).0 < COST_BOUND,
    ensures
        order@ == cand_order(cands@.map_values(|c: (u128, VocabEntry)| cand_view(c))),
{
    let ghost cv = cands@.map_values(|c: (u128, VocabEntry)| cand_view(c));
    let n = cands.len();
    let mut surf: Vec<Vec<char>> = Vec::new();
    let mut i: usize = 0;
    while i < n
        invariant
            i <= n == cands@.len() == cv.len(),
            cv == cands@.map_values(|c: (u128, VocabEntry)| cand_view(c)),
            surf@.len() == i,
            forall|k: int| 0 <= k < i ==> (#[trigger] surf@[k])@ == surfaces(cv)[k],
        decreases n - i,
    {
        surf.push(chars_of(cands[i].1.surface.as_str()));
        i = i + 1;
    }
    let mut keys: Vec<(i128, u64)> = Vec::new();
    let mut items: Vec<usize> = Vec::new();
    let mut i: usize = 0;
    while i < n
        invariant
            i <= n == cands@.len() == cv.len() == surf@.len(),
            cv == cands@.map_values(|c: (u128, VocabEntry)| cand_view(c)),
            forall|k: int| 0 <= k < n ==> (#[trigger] surf@[k])@ == surfaces(cv)[k],
            forall|k: int| 0 <= k < cands@.len() ==> (#[trigger] cands@[k]).0 < COST_BOUND,
            keys@ == cand_keys(cv).take(i as int),
            items@ == positions(i as int),
        decreases n - i,
    {
        let mut below: usize = 0;
        let mut j: usize = 0;
        while j < n
            invariant
                j <= n == surf@.len() == cv.len(),
                i < n,
                forall|k: int| 0 <= k < n ==> (#[trigger] surf@[k])@ == surfaces(cv)[k],
                below as int == count_below(surfaces(cv), surf@[i as int]@, j as int),
                below <= j,
            decreases n - j,
        {
            if lex_less(&surf[j], &surf[i]) {
                below = below + 1;
            }
            j = j + 1;
        }
        proof {
            assert(surfaces(cv)[i as int] == cv[i as int].1);
            assert(cands@[i as int].0 < COST_BOUND);
        }
        keys.push((cands[i].0 as i128, below as u64));
        items.push(i);
        proof {
            assert(keys@ =~= cand_keys(cv).take(i + 1));
            assert(items@ =~= positions(i + 1));
        }
        i = i + 1;
    }
    proof {
        assert(keys@ =~= cand_keys(cv));
    }
    stable_sort_indices(&items, &keys)
}


// ---------------------------------------------------------------------------------------------
// Selecting words: each kanji collects up to its quota, cheapest words first.
// ---------------------------------------------------------------------------------------------

/// How many of `parts` name glyph `g`.
pub open spec fn part_count(parts: Seq<(Seq<char>, Seq<char>)>, g: Seq<char>) -> nat
    decreases parts.len(),
{
    if parts.len() == 0 {
        0
    } else {
        part_count(parts.drop_last(), g) + if parts.last().0 == g { 1nat } else { 0nat }
    }
}

/// How many words kanji `g` has collected among the selected ones (each kanji part naming it
/// counts; with `singles_only`, only single-character words count).
pub open spec fn collected(cands: Seq<CandView>, sel: Seq<usize>, g: Seq<char>, singles_only: bool) -> nat
    decreases sel.len(),
{
    if sel.len() == 0 {
        0
    } else {
        let c = cands[sel.last() as int];
        collected(cands, sel.drop_last(), g, singles_only) + if !singles_only || c.1.len() == 1 {
            part_count(c.4, g)
        } else {
            0nat
        }
    }
}

/// The kanji of part `p` of candidate `c` is under quota: it has fewer than
/// `MAX_VOCAB_PER_KANJI` words, and, for a single-character word, no single-character word yet.
pub open spec fn under_quota(cands: Seq<CandView>, sel: Seq<usize>, c: CandView, p: int) -> bool {
    &&& collected(cands, sel, c.4[p].0, false) < MAX_VOCAB_PER_KANJI
    &&& (c.1.len() != 1 || collected(cands, sel, c.4[p].0, true) < 1)
}

/// A candidate is still wanted when it has kanji parts and every one of its kanji is under
/// quota, so that no kanji collects more than `MAX_VOCAB_PER_KANJI` words.
pub open spec fn wanted(cands: Seq<CandView>, sel: Seq<usize>, c: CandView) -> bool {
    &&& c.4.len() > 0
    &&& forall|p: int| 0 <= p < c.4.len() ==> #[trigger] under_quota(cands, sel, c, p)
}

/// The key a word is told apart by: its surface, a U+0001 separator, and its reading.
pub open spec fn word_key(c: CandView) -> Seq<char> {
    c.1 + seq!['\u{1}'] + c.2
}

/// A word with the same key is already selected.
pub open spec fn already_selected(cands: Seq<CandView>, sel: Seq<usize>, c: CandView) -> bool {
    exists|k: int| 0 <= k < sel.len() && word_key(cands[#[trigger] sel[k] as int]) == word_key(c)
}

/// The selection over the first `n` candidates of `order`: a candidate is taken when it is
/// still wanted and no word with its key was taken before.
pub open spec fn select_upto(cands: Seq<CandView>, order: Seq<usize>, n: int) -> Seq<usize>
    decreases n,
{
    if n <= 0 {
        Seq::empty()
    } else {
        let prev = select_upto(cands, order, n - 1);
        let c = cands[order[n - 1] as int];
        if wanted(cands, prev, c) && !already_selected(cands, prev, c) {
            prev.push(order[n - 1])
        } else {
            prev
        }
    }
}

/// `min(part_count(parts, g), MAX_VOCAB_PER_KANJI)`.
fn capped_part_count(parts: &Vec<(String, String)>, g: &Vec<char>) -> (r: usize)
    ensures
        r == if part_count(parts_view(parts@), g@) < MAX_VOCAB_PER_KANJI { part_count(parts_view(parts@), g@) } else { MAX_VOCAB_PER_KANJI as nat },
{
    let ghost pv = parts_view(parts@);
    let mut r: usize = 0;
    let mut i: usize = 0;
    while i < parts.len()
        invariant
            i <= parts@.len(),
            pv == parts_view(parts@),
            r == if part_count(pv.take(i as int), g@) < MAX_VOCAB_PER_KANJI { part_count(pv.take(i as int), g@) } else { MAX_VOCAB_PER_KANJI as nat },
        decreases parts.len() - i,
    {
        proof {
            assert(pv.take(i + 1).drop_last() =~= pv.take(i as int));
            assert(pv.take(i + 1).last() == pv[i as int]);
        }
        let pg = chars_of(parts[i].0.as_str());
        if chars_eq(&pg, g) && r < MAX_VOCAB_PER_KANJI {
            r = r + 1;
        }
        i = i + 1;
    }
    assert(pv.take(parts@.len() as int) =~= pv);
    r
}

/// `min(collected(..), MAX_VOCAB_PER_KANJI)`.
fn capped_collected(cands: &Vec<(u128, VocabEntry)>, sel: &Vec<usize>, g: &Vec<char>, singles_only: bool) -> (r: usize)
    requires
        forall|k: int| 0 <= k < sel@.len() ==> (#[trigger] sel@[k]) < cands@.len(),
    ensures
        ({
            let cv = cands@.map_values(|c: (u128, VocabEntry)| cand_view(c));
            let n = collected(cv, sel@, g@, singles_only);
            r == if n < MAX_VOCAB_PER_KANJI { n } else { MAX_VOCAB_PER_KANJI as nat }
        }),
{
    let ghost cv = cands@.map_values(|c: (u128, VocabEntry)| cand_view(c));
    let mut r: usize = 0;
    let mut k: usize = 0;
    while k < sel.len()
        invariant
            k <= sel@.len(),
            cv == cands@.map_values(|c: (u128, VocabEntry)| cand_view(c)),
            forall|j: int| 0 <= j < sel@.len() ==> (#[trigger] sel@[j]) < cands@.len(),
            r == if collected(cv, sel@.take(k as int), g@, singles_only) < MAX_VOCAB_PER_KANJI {
                collected(cv, sel@.take(k as int), g@, singles_only)
            } else {
                MAX_VOCAB_PER_KANJI as nat
            },
        decreases sel.len() - k,
    {
        proof {
            assert(sel@.take(k + 1).drop_last() =~= sel@.take(k as int));
            assert(sel@.take(k + 1).last() == sel@[k as int]);
        }
        let e = &cands[sel[k]].1;
        let sc = chars_of(e.surface.as_str());
        if !singles_only || sc.len() == 1 {
            let pc = capped_part_count(&e.kanji_parts, g);
            r = if r + pc < MAX_VOCAB_PER_KANJI { r + pc } else { MAX_VOCAB_PER_KANJI };
        }
        k = k + 1;
    }
    assert(sel@.take(sel@.len() as int) =~= sel@);
    r
}

/// The key of a candidate as characters.
fn key_of(e: &VocabEntry) -> (r: Vec<char>)
    ensures
        r@ == e.surface@ + seq!['\u{1}'] + e.reading@,
{
    let mut r = chars_of(e.surface.as_str());
    let rd = chars_of(e.reading.as_str());
    r.push('\u{1}');
    let ghost head = r@;
    let mut i: usize = 0;
    while i < rd.len()
        invariant
            i <= rd@.len(),
            head == e.surface@ + seq!['\u{1}'],
            r@ == head + rd@.take(i as int),
        decreases rd.len() - i,
    {
        r.push(rd[i]);
        proof {
            assert(r@ =~= head + rd@.take(i + 1));
        }
        i = i + 1;
    }
    assert(rd@.take(rd@.len() as int) =~= rd@);
    r
}

/// Select words in `order` (see `select_upto`).
fn select_words(cands: &Vec<(u128, VocabEntry)>, order: &Vec<usize>) -> (sel: Vec<usize>)
    requires
        forall|k: int| 0 <= k < order@.len() ==> (#[trigger] order@[k]) < cands@.len(),
    ensures
        sel@ == select_upto(cands@.map_values(|c: (u128, VocabEntry)| cand_view(c)), order@, order@.len() as int),
        forall|k: int| 0 <= k < sel@.len() ==> (#[trigger] sel@[k]) < cands@.len(),
{
    let ghost cv = cands@.map_values(|c: (u128, VocabEntry)| cand_view(c));
    let mut keys: Vec<Vec<char>> = Vec::new();
    let mut i: usize = 0;
    while i < cands.len()
        invariant
            i <= cands@.len() == cv.len(),
            cv == cands@.map_values(|c: (u128, VocabEntry)| cand_view(c)),
            keys@.len() == i,
            forall|k: int| 0 <= k < i ==> (#[trigger] keys@[k])@ == word_key(cv[k]),
        decreases cands.len() - i,
    {
        keys.push(key_of(&cands[i].1));
        i = i + 1;
    }
    let mut sel: Vec<usize> = Vec::new();
    let mut t: usize = 0;
    while t < order.len()
        invariant
            t <= order@.len(),
            cv == cands@.map_values(|c: (u128, VocabEntry)| cand_view(c)),
            keys@.len() == cands@.len() == cv.len(),
            forall|k: int| 0 <= k < cands@.len() ==> (#[trigger] keys@[k])@ == word_key(cv[k]),
            forall|k: int| 0 <= k < order@.len() ==> (#[trigger] order@[k]) < cands@.len(),
            sel@ == select_upto(cv, order@, t as int),
            forall|k: int| 0 <= k < sel@.len() ==> (#[trigger] sel@[k]) < cands@.len(),
        decreases order.len() - t,
    {
        let ci = order[t];
        let e = &cands[ci].1;
        let ghost c = cv[ci as int];
        let single = chars_of(e.surface.as_str()).len() == 1;
        let mut want = e.kanji_parts.len() > 0;
        let mut p: usize = 0;
        while p < e.kanji_parts.len() && want
            invariant
                p <= e.kanji_parts@.len(),
                c == cv[ci as int],
                c.4 == parts_view(e.kanji_parts@),
                single == (c.1.len() == 1),
                cv == cands@.map_values(|c: (u128, VocabEntry)| cand_view(c)),
                forall|k: int| 0 <= k < sel@.len() ==> (#[trigger] sel@[k]) < cands@.len(),
                want ==> c.4.len() > 0 && forall|q: int| 0 <= q < p ==> #[trigger] under_quota(cv, sel@, c, q),
                !want ==> !wanted(cv, sel@, c),
            decreases e.kanji_parts.len() - p,
        {
            let g = chars_of(e.kanji_parts[p].0.as_str());
            assert(c.4[p as int].0 == g@);
            let total = capped_collected(cands, &sel, &g, false);
            if total >= MAX_VOCAB_PER_KANJI || (single && capped_collected(cands, &sel, &g, true) >= 1) {
                want = false;
                assert(!under_quota(cv, sel@, c, p as int));
            }
            p = p + 1;
        }
        proof {
            if want {
                assert(wanted(cv, sel@, c));
            }
        }
        if want {
            let mut dup = false;
            let mut k: usize = 0;
            while k < sel.len() && !dup
                invariant
                    k <= sel@.len(),
                    keys@.len() == cands@.len() == cv.len(),
                    forall|j: int| 0 <= j < cands@.len() ==> (#[trigger] keys@[j])@ == word_key(cv[j]),
                    forall|j: int| 0 <= j < sel@.len() ==> (#[trigger] sel@[j]) < cands@.len(),
                    ci < cands@.len(),
                    dup ==> already_selected(cv, sel@, cv[ci as int]),
                    !dup ==> forall|j: int| 0 <= j < k ==> word_key(cv[#[trigger] sel@[j] as int]) != word_key(cv[ci as int]),
                decreases sel.len() - k,
            {
                if chars_eq(&keys[sel[k]], &keys[ci]) {
                    dup = true;
                }
                k = k + 1;
            }
            if !dup {
                sel.push(ci);
            }
        }
        proof {
            if !want {
                assert(!wanted(cv, select_upto(cv, order@, t as int), c));
            }
        }
        t = t + 1;
    }
    sel
}


// ---------------------------------------------------------------------------------------------
// Dominant readings: the reading each kanji contributes most often.
// ---------------------------------------------------------------------------------------------

/// How often the tally holds entry `h`.
pub open spec fn hit_count(hits: Seq<Hit>, h: Hit) -> nat
    decreases hits.len(),
{
    if hits.len() == 0 {
        0
    } else {
        hit_count(hits.drop_last(), h) + if hits.last() == h { 1nat } else { 0nat }
    }
}

/// Among the first `n` tally entries of glyph `g`, the position of the first whose entry is
/// counted most often.
pub open spec fn best_upto(hits: Seq<Hit>, g: Seq<char>, n: int) -> Option<int>
    decreases n,
{
    if n <= 0 {
        None
    } else {
        let prev = best_upto(hits, g, n - 1);
        if hits[n - 1].0 == g && (prev is None || hit_count(hits, hits[n - 1]) > hit_count(hits, hits[prev->0])) {
            Some(n - 1)
        } else {
            prev
        }
    }
}

/// The glyphs of the first `n` tally entries, each once, in order of first appearance.
pub open spec fn glyphs_upto(hits: Seq<Hit>, n: int) -> Seq<Seq<char>>
    decreases n,
{
    if n <= 0 {
        Seq::empty()
    } else {
        let prev = glyphs_upto(hits, n - 1);
        if prev.contains(hits[n - 1].0) {
            prev
        } else {
            prev.push(hits[n - 1].0)
        }
    }
}

/// The dominant reading of every kanji in the tally, in order of first appearance: the
/// (reading, kind) it contributes most often (the earliest seen among equally frequent ones).
pub open spec fn spec_dominant(hits: Seq<Hit>) -> Seq<(Seq<char>, (Seq<char>, Seq<char>))> {
    glyphs_upto(hits, hits.len() as int).map_values(|g: Seq<char>| {
        let b = best_upto(hits, g, hits.len() as int)->0;
        (g, (hits[b].2, hits[b].1))
    })
}

/// Dominant readings as values.
pub open spec fn dominant_view(d: Seq<(String, (String, String))>) -> Seq<(Seq<char>, (Seq<char>, Seq<char>))> {
    d.map_values(|x: (String, (String, String))| (x.0@, (x.1.0@, x.1.1@)))
}

proof fn lemma_glyphs_upto(hits: Seq<Hit>, n: int)
    requires
        0 <= n <= hits.len(),
    ensures
        forall|k: int| 0 <= k < glyphs_upto(hits, n).len() ==> exists|j: int| 0 <= j < n && hits[j].0 == #[trigger] glyphs_upto(hits, n)[k],
        forall|j: int| 0 <= j < n ==> glyphs_upto(hits, n).contains(#[trigger] hits[j].0),
        forall|a: int, b: int| 0 <= a < b < glyphs_upto(hits, n).len() ==> glyphs_upto(hits, n)[a] != glyphs_upto(hits, n)[b],
    decreases n,
{
    if n > 0 {
        lemma_glyphs_upto(hits, n - 1);
        let prev = glyphs_upto(hits, n - 1);
        let cur = glyphs_upto(hits, n);
        assert forall|k: int| 0 <= k < cur.len() implies exists|j: int| 0 <= j < n && hits[j].0 == #[trigger] cur[k] by {
            if k < prev.len() {
                assert(cur[k] == prev[k]);
                let j = choose|j: int| 0 <= j < n - 1 && hits[j].0 == prev[k];
                assert(hits[j].0 == cur[k]);
            } else {
                assert(hits[n - 1].0 == cur[k]);
            }
        }
        assert forall|j: int| 0 <= j < n implies cur.contains(#[trigger] hits[j].0) by {
            if j < n - 1 {
                assert(prev.contains(hits[j].0));
                let k = choose|k: int| 0 <= k < prev.len() && prev[k] == hits[j].0;
                assert(cur[k] == prev[k]);
            } else if !prev.contains(hits[n - 1].0) {
                assert(cur[prev.len() as int] == hits[n - 1].0);
            }
        }
    }
}

proof fn lemma_best_upto(hits: Seq<Hit>, g: Seq<char>, n: int)
    requires
        0 <= n <= hits.len(),
    ensures
        match best_upto(hits, g, n) {
            Some(b) => 0 <= b < n && hits[b].0 == g && forall|j: int| 0 <= j < n && hits[j].0 == g
                ==> hit_count(hits, #[trigger] hits[j]) <= hit_count(hits, hits[b]),
            None => forall|j: int| 0 <= j < n ==> (#[trigger] hits[j]).0 != g,
        },
    decreases n,
{
    if n > 0 {
        lemma_best_upto(hits, g, n - 1);
    }
}

proof fn lemma_hit_count_pos(hits: Seq<Hit>, j: int)
    requires
        0 <= j < hits.len(),
    ensures
        hit_count(hits, hits[j]) >= 1,
    decreases hits.len(),
{
    if j < hits.len() - 1 {
        lemma_hit_count_pos(hits.drop_last(), j);
        assert(hits.drop_last()[j] == hits[j]);
    }
}

fn hit_eq(a: &(String, String, String), b: &(String, String, String)) -> (r: bool)
    ensures
        r == ((a.0@, a.1@, a.2@) == (b.0@, b.1@, b.2@)),
{
    str_eq(a.0.as_str(), b.0.as_str()) && str_eq(a.1.as_str(), b.1.as_str()) && str_eq(a.2.as_str(), b.2.as_str())
}

/// How often the tally holds entry `hits[i]`.
fn count_hit(hits: &Vec<(String, String, String)>, i: usize) -> (r: usize)
    requires
        i < hits@.len(),
    ensures
        r == hit_count(hits_view(hits@), hits_view(hits@)[i as int]),
{
    let ghost hv = hits_view(hits@);
    let mut r: usize = 0;
    let mut j: usize = 0;
    while j < hits.len()
        invariant
            j <= hits@.len(),
            i < hits@.len(),
            hv == hits_view(hits@),
            r == hit_count(hv.take(j as int), hv[i as int]),
            r <= j,
        decreases hits.len() - j,
    {
        proof {
            assert(hv.take(j + 1).drop_last() =~= hv.take(j as int));
            assert(hv.take(j + 1).last() == hv[j as int]);
        }
        if hit_eq(&hits[j], &hits[i]) {
            r = r + 1;
        }
        j = j + 1;
    }
    assert(hv.take(hits@.len() as int) =~= hv);
    r
}

/// The dominant reading of every kanji in the tally (see `spec_dominant`).
pub fn dominant_readings(hits: &Vec<(String, String, String)>) -> (d: Vec<(String, (String, String))>)
    ensures
        dominant_view(d@) == spec_dominant(hits_view(hits@)),
{
    let ghost hv = hits_view(hits@);
    let n = hits.len();
    // Glyphs in order of first appearance.
    let mut glyphs: Vec<Vec<char>> = Vec::new();
    let mut gi: Vec<usize> = Vec::new();
    let mut i: usize = 0;
    while i < n
        invariant
            i <= n == hits@.len() == hv.len(),
            hv == hits_view(hits@),
            glyphs@.len() == gi@.len() == glyphs_upto(hv, i as int).len(),
            forall|k: int| 0 <= k < glyphs@.len() ==> (#[trigger] glyphs@[k])@ == glyphs_upto(hv, i as int)[k],
            forall|k: int| 0 <= k < gi@.len() ==> (#[trigger] gi@[k]) < n && hits@[gi@[k] as int].0@ == glyphs@[k]@,
        decreases n - i,
    {
        let g = chars_of(hits[i].0.as_str());
        let ghost prev = glyphs_upto(hv, i as int);
        let mut found = false;
        let mut k: usize = 0;
        while k < glyphs.len() && !found
            invariant
                k <= glyphs@.len() == prev.len(),
                forall|j: int| 0 <= j < glyphs@.len() ==> (#[trigger] glyphs@[j])@ == prev[j],
                found ==> prev.contains(g@),
                !found ==> forall|j: int| 0 <= j < k ==> prev[j] != g@,
            decreases glyphs.len() - k,
        {
            if chars_eq(&glyphs[k], &g) {
                found = true;
                assert(prev[k as int] == g@);
            }
            k = k + 1;
        }
        assert(hv[i as int].0 == g@);
        if !found {
            glyphs.push(g);
            gi.push(i);
        }
        i = i + 1;
    }
    let mut d: Vec<(String, (String, String))> = Vec::new();
    let ghost gs = glyphs_upto(hv, n as int);
    let mut k: usize = 0;
    while k < glyphs.len()
        invariant
            k <= glyphs@.len() == gi@.len() == gs.len(),
            n == hits@.len() == hv.len(),
            hv == hits_view(hits@),
            gs == glyphs_upto(hv, n as int),
            forall|j: int| 0 <= j < glyphs@.len() ==> (#[trigger] glyphs@[j])@ == gs[j],
            forall|j: int| 0 <= j < gi@.len() ==> (#[trigger] gi@[j]) < n && hits@[gi@[j] as int].0@ == glyphs@[j]@,
            dominant_view(d@) == spec_dominant(hv).take(k as int),
        decreases glyphs.len() - k,
    {
        let g = &glyphs[k];
        let mut best: usize = 0;
        let mut best_count: usize = 0;
        let mut seen_g: bool = false;
        let mut j: usize = 0;
        while j < n
            invariant
                j <= n == hits@.len() == hv.len(),
                hv == hits_view(hits@),
                seen_g == (best_upto(hv, g@, j as int) is Some),
                seen_g ==> best_upto(hv, g@, j as int) == Some(best as int) && best < n
                    && best_count == hit_count(hv, hv[best as int]),
            decreases n - j,
        {
            let hg = chars_of(hits[j].0.as_str());
            if chars_eq(&hg, g) {
                let c = count_hit(hits, j);
                if !seen_g || c > best_count {
                    best = j;
                    best_count = c;
                    seen_g = true;
                }
            }
            j = j + 1;
        }
        proof {
            let i0 = gi@[k as int] as int;
            lemma_best_upto(hv, g@, n as int);
            assert(hv[i0].0 == g@);
            assert(seen_g);
            assert(hv[best as int] == (hits@[best as int].0@, hits@[best as int].1@, hits@[best as int].2@));
            assert(spec_dominant(hv)[k as int] == (gs[k as int], (hv[best as int].2, hv[best as int].1)));
        }
        let entry = (hits[best].0.clone(), (hits[best].2.clone(), hits[best].1.clone()));
        let ghost old_d = d@;
        d.push(entry);
        proof {
            assert(d@ == old_d.push(entry));
            assert(dominant_view(d@) =~= dominant_view(old_d).push((entry.0@, (entry.1.0@, entry.1.1@))));
            assert(spec_dominant(hv).take(k + 1) =~= spec_dominant(hv).take(k as int).push(spec_dominant(hv)[k as int]));
        }
        k = k + 1;
    }
    proof {
        assert(spec_dominant(hv).take(gs.len() as int) =~= spec_dominant(hv));
    }
    d
}

/// Every kanji that contributes a reading to some word gets a dominant reading, and it is one
/// that the kanji contributes at least as often as any other of its readings.
pub proof fn law_dominant_is_most_frequent(hits: Seq<Hit>, j: int)
    requires
        0 <= j < hits.len(),
    ensures
        exists|k: int| 0 <= k < spec_dominant(hits).len() && (#[trigger] spec_dominant(hits)[k]).0 == hits[j].0,
        forall|k: int| 0 <= k < spec_dominant(hits).len() && (#[trigger] spec_dominant(hits)[k]).0 == hits[j].0 ==> {
            let dk = spec_dominant(hits)[k];
            let top = (hits[j].0, dk.1.1, dk.1.0);
            &&& hit_count(hits, hits[j]) <= hit_count(hits, top)
            &&& hit_count(hits, top) >= 1
        },
{
    let n = hits.len() as int;
    lemma_glyphs_upto(hits, n);
    let gs = glyphs_upto(hits, n);
    assert(gs.contains(hits[j].0));
    let k0 = choose|k: int| 0 <= k < gs.len() && gs[k] == hits[j].0;
    assert(spec_dominant(hits)[k0].0 == hits[j].0);
    assert forall|k: int| 0 <= k < spec_dominant(hits).len() && (#[trigger] spec_dominant(hits)[k]).0 == hits[j].0 implies {
        let dk = spec_dominant(hits)[k];
        let top = (hits[j].0, dk.1.1, dk.1.0);
        &&& hit_count(hits, hits[j]) <= hit_count(hits, top)
        &&& hit_count(hits, top) >= 1
    } by {
        let g = hits[j].0;
        assert(gs[k] == g);
        lemma_best_upto(hits, g, n);
        let b = best_upto(hits, g, n)->0;
        assert(hits[b] == (g, hits[b].1, hits[b].2));
        lemma_hit_count_pos(hits, b);
    }
}


// ---------------------------------------------------------------------------------------------
// The whole derivation.
// ---------------------------------------------------------------------------------------------

/// A selected word as values: (surface, reading, gloss, kanji parts).
pub open spec fn entry_view(e: VocabEntry) -> (Seq<char>, Seq<char>, Seq<char>, Seq<(Seq<char>, Seq<char>)>) {
    (e.surface@, e.reading@, e.gloss@, parts_view(e.kanji_parts@))
}

/// The candidates of all words.
pub open spec fn spec_candidates(
    n5: Seq<String>,
    stored: Seq<StoredReadings>,
    levels: Seq<(String, i64)>,
    src: VocabSources,
) -> Seq<CandView> {
    all_cands(n5, stored, levels, src, src.words@.len() as int)
}

/// The selected candidates, as positions among all candidates, in selection order.
pub open spec fn spec_selection(cands: Seq<CandView>) -> Seq<usize> {
    select_upto(cands, cand_order(cands), cands.len() as int)
}

fn copy_entry(e: &VocabEntry) -> (r: VocabEntry)
    ensures
        entry_view(r) == entry_view(*e),
{
    VocabEntry {
        surface: e.surface.clone(),
        reading: e.reading.clone(),
        gloss: e.gloss.clone(),
        kanji_parts: copy_parts(&e.kanji_parts),
    }
}

/// Derive each kanji's dominant reading and select in-context vocabulary.
///
/// Every dictionary word is evaluated in turn (`spec_eval_word`): the readings its kanji parts
/// contribute are tallied, and the words that pass every filter become candidates with a cost.
/// The dominant reading of a kanji is the one it contributes most often (`spec_dominant`). The
/// candidates are taken cheapest first (ties by surface, then word order), and a candidate is
/// selected while every one of its kanji is under quota (`select_upto`).
pub fn build(
    n5: &Vec<String>,
    stored: &Vec<StoredReadings>,
    kanji_levels: &Vec<(String, i64)>,
    src: &VocabSources,
) -> (r: VocabData)
    ensures
        dominant_view(r.dominant@) == spec_dominant(all_hits(n5@, stored@, kanji_levels@, *src, src.words@.len() as int)),
        ({
            let cands = spec_candidates(n5@, stored@, kanji_levels@, *src);
            let sel = spec_selection(cands);
            &&& r.vocab@.len() == sel.len()
            &&& forall|k: int| 0 <= k < sel.len() ==> entry_view(#[trigger] r.vocab@[k]) == {
                let c = cands[sel[k] as int];
                (c.1, c.2, c.3, c.4)
            }
        }),
        forall|k: int| 0 <= k < r.vocab@.len() ==> (#[trigger] r.vocab@[k]).surface@.len() <= 4
            && r.vocab@[k].kanji_parts@.len() > 0,
{
    let tokens = line_tokens(&src.freq_lines);
    let mut hits: Vec<(String, String, String)> = Vec::new();
    let mut cands: Vec<(u128, VocabEntry)> = Vec::new();
    let mut i: usize = 0;
    while i < src.words.len()
        invariant
            i <= src.words@.len(),
            tokens@.len() == src.freq_lines@.len(),
            forall|k: int| 0 <= k < src.freq_lines@.len() ==> opt_view(#[trigger] tokens@[k]) == spec_first_token(src.freq_lines@[k]@),
            hits_view(hits@) == all_hits(n5@, stored@, kanji_levels@, *src, i as int),
            cands@.map_values(|c: (u128, VocabEntry)| cand_view(c)) == all_cands(n5@, stored@, kanji_levels@, *src, i as int),
            forall|k: int| 0 <= k < cands@.len() ==> (#[trigger] cands@[k]).0 < COST_BOUND,
        decreases src.words.len() - i,
    {
        let (mut h, c) = eval_word(&src.words[i], n5, stored, kanji_levels, src, &tokens);
        let ghost old_hits = hits@;
        let ghost old_cands = cands@;
        let ghost hw = h@;
        hits.append(&mut h);
        proof {
            assert(hits@ == old_hits + hw);
            assert(hits_view(hits@) =~= hits_view(old_hits) + hits_view(hw));
        }
        match c {
            Some(c) => {
                cands.push(c);
                proof {
                    assert(cands@ == old_cands.push(c));
                    assert(cands@.map_values(|c: (u128, VocabEntry)| cand_view(c)) =~= old_cands.map_values(
                        |c: (u128, VocabEntry)| cand_view(c)).push(cand_view(c)));
                }
            },
            None => {},
        }
        i = i + 1;
    }
    let dominant = dominant_readings(&hits);
    let ghost cv = cands@.map_values(|c: (u128, VocabEntry)| cand_view(c));
    let order = order_candidates(&cands);
    proof {
        let ps = positions(cands@.len() as int);
        lemma_sorted_elems(ps, cand_keys(cv));
        assert forall|k: int| 0 <= k < order@.len() implies (#[trigger] order@[k]) < cands@.len() by {
            lemma_sorted_contains(ps, cand_keys(cv), k);
            let w = choose|w: int| 0 <= w < ps.len() && ps[w] == order@[k];
        }
    }
    let sel = select_words(&cands, &order);
    let mut vocab: Vec<VocabEntry> = Vec::new();
    let mut k: usize = 0;
    while k < sel.len()
        invariant
            k <= sel@.len(),
            cv == cands@.map_values(|c: (u128, VocabEntry)| cand_view(c)),
            forall|j: int| 0 <= j < sel@.len() ==> (#[trigger] sel@[j]) < cands@.len(),
            vocab@.len() == k,
            forall|j: int| 0 <= j < k ==> entry_view(#[trigger] vocab@[j]) == {
                let c = cv[sel@[j] as int];
                (c.1, c.2, c.3, c.4)
            },
        decreases sel.len() - k,
    {
        vocab.push(copy_entry(&cands[sel[k]].1));
        k = k + 1;
    }
    proof {
        assert(cv == spec_candidates(n5@, stored@, kanji_levels@, *src));
        assert forall|j: int| 0 <= j < vocab@.len() implies (#[trigger] vocab@[j]).surface@.len() <= 4
            && vocab@[j].kanji_parts@.len() > 0 by {
            law_selected_words_are_short(n5@, stored@, kanji_levels@, *src, j);
            assert(entry_view(vocab@[j]).3.len() == vocab@[j].kanji_parts@.len());
        }
    }
    VocabData { dominant, vocab }
}


// ---------------------------------------------------------------------------------------------
// Laws of the selection.
// ---------------------------------------------------------------------------------------------

/// The positions within `order` of the candidates that `select_upto` takes.
pub open spec fn select_pos(cands: Seq<CandView>, order: Seq<usize>, n: int) -> Seq<int>
    decreases n,
{
    if n <= 0 {
        Seq::empty()
    } else {
        let prev = select_upto(cands, order, n - 1);
        let c = cands[order[n - 1] as int];
        if wanted(cands, prev, c) && !already_selected(cands, prev, c) {
            select_pos(cands, order, n - 1).push(n - 1)
        } else {
            select_pos(cands, order, n - 1)
        }
    }
}

proof fn lemma_select_pos(cands: Seq<CandView>, order: Seq<usize>, n: int)
    requires
        0 <= n <= order.len(),
    ensures
        select_pos(cands, order, n).len() == select_upto(cands, order, n).len(),
        forall|k: int| 0 <= k < select_pos(cands, order, n).len() ==> {
            &&& 0 <= #[trigger] select_pos(cands, order, n)[k] < n
            &&& select_upto(cands, order, n)[k] == order[select_pos(cands, order, n)[k]]
        },
        forall|a: int, b: int| 0 <= a < b < select_pos(cands, order, n).len() ==> #[trigger] select_pos(cands, order, n)[a]
            < #[trigger] select_pos(cands, order, n)[b],
    decreases n,
{
    if n > 0 {
        lemma_select_pos(cands, order, n - 1);
    }
}

proof fn lemma_select_distinct(cands: Seq<CandView>, order: Seq<usize>, n: int)
    requires
        0 <= n <= order.len(),
    ensures
        forall|a: int, b: int| 0 <= a < b < select_upto(cands, order, n).len() ==> word_key(cands[#[trigger] select_upto(cands, order, n)[a] as int])
            != word_key(cands[#[trigger] select_upto(cands, order, n)[b] as int]),
    decreases n,
{
    if n > 0 {
        lemma_select_distinct(cands, order, n - 1);
        let prev = select_upto(cands, order, n - 1);
        let cur = select_upto(cands, order, n);
        let c = cands[order[n - 1] as int];
        if wanted(cands, prev, c) && !already_selected(cands, prev, c) {
            assert forall|a: int, b: int| 0 <= a < b < cur.len() implies word_key(cands[#[trigger] cur[a] as int])
                != word_key(cands[#[trigger] cur[b] as int]) by {
                assert(cur[a] == prev[a]);
                if b < prev.len() {
                    assert(cur[b] == prev[b]);
                } else {
                    assert(cur[b] == order[n - 1]);
                    if word_key(cands[cur[a] as int]) == word_key(c) {
                        assert(word_key(cands[prev[a] as int]) == word_key(c));
                    }
                }
            }
        }
    }
}

/// No word is selected twice: no two selected words have the same surface and reading.
pub proof fn law_selected_words_distinct(cands: Seq<CandView>, a: int, b: int)
    requires
        0 <= a < b < spec_selection(cands).len(),
    ensures
        !(cands[spec_selection(cands)[a] as int].1 == cands[spec_selection(cands)[b] as int].1
            && cands[spec_selection(cands)[a] as int].2 == cands[spec_selection(cands)[b] as int].2),
{
    let order = cand_order(cands);
    let n = cands.len() as int;
    lemma_sorted_elems(positions(n), cand_keys(cands));
    lemma_select_distinct(cands, order, n);
    let sel = spec_selection(cands);
    assert(word_key(cands[sel[a] as int]) != word_key(cands[sel[b] as int]));
}

/// Selected words come cheapest first, and words of equal cost in lexicographic order of their
/// surfaces.
pub proof fn law_selected_words_in_cost_order(cands: Seq<CandView>, a: int, b: int)
    requires
        forall|i: int| 0 <= i < cands.len() ==> 0 <= (#[trigger] cands[i]).0 < COST_BOUND,
        cands.len() <= u64::MAX,
        0 <= a < b < spec_selection(cands).len(),
    ensures
        ({
            let x = cands[spec_selection(cands)[a] as int];
            let y = cands[spec_selection(cands)[b] as int];
            x.0 < y.0 || (x.0 == y.0 && !lex_lt(y.1, x.1))
        }),
{
    let order = cand_order(cands);
    let n = cands.len() as int;
    let ps = positions(n);
    let keys = cand_keys(cands);
    lemma_sorted_elems(ps, keys);
    lemma_sorted_stable_sorted(ps, keys);
    lemma_select_pos(cands, order, n);
    let pos = select_pos(cands, order, n);
    let sel = spec_selection(cands);
    let pa = pos[a];
    let pb = pos[b];
    assert(pa < pb);
    assert(crate::order::idx_le(keys, order[pa], order[pb]));
    lemma_sorted_contains(ps, keys, pa);
    lemma_sorted_contains(ps, keys, pb);
    let wa = choose|w: int| 0 <= w < ps.len() && ps[w] == order[pa];
    let wb = choose|w: int| 0 <= w < ps.len() && ps[w] == order[pb];
    lemma_keys_order(cands, order[pa] as int, order[pb] as int);
}


/// How many of the selected words have `g` among their kanji parts (with `singles_only`, only
/// the single-character ones).
pub open spec fn words_with(cands: Seq<CandView>, sel: Seq<usize>, g: Seq<char>, singles_only: bool) -> nat
    decreases sel.len(),
{
    if sel.len() == 0 {
        0
    } else {
        let c = cands[sel.last() as int];
        words_with(cands, sel.drop_last(), g, singles_only) + if part_count(c.4, g) > 0 && (!singles_only
            || c.1.len() == 1) {
            1nat
        } else {
            0nat
        }
    }
}

proof fn lemma_words_le_collected(cands: Seq<CandView>, sel: Seq<usize>, g: Seq<char>, singles_only: bool)
    ensures
        words_with(cands, sel, g, singles_only) <= collected(cands, sel, g, singles_only),
    decreases sel.len(),
{
    if sel.len() > 0 {
        lemma_words_le_collected(cands, sel.drop_last(), g, singles_only);
    }
}

proof fn lemma_part_named(parts: Seq<(Seq<char>, Seq<char>)>, g: Seq<char>) -> (p: int)
    requires
        part_count(parts, g) > 0,
    ensures
        0 <= p < parts.len(),
        parts[p].0 == g,
    decreases parts.len(),
{
    if parts.last().0 == g {
        parts.len() - 1
    } else {
        let q = lemma_part_named(parts.drop_last(), g);
        assert(parts.drop_last()[q] == parts[q]);
        q
    }
}

proof fn lemma_quota(cands: Seq<CandView>, order: Seq<usize>, g: Seq<char>, n: int)
    requires
        0 <= n <= order.len(),
    ensures
        words_with(cands, select_upto(cands, order, n), g, false) <= MAX_VOCAB_PER_KANJI,
        words_with(cands, select_upto(cands, order, n), g, true) <= 1,
    decreases n,
{
    if n > 0 {
        lemma_quota(cands, order, g, n - 1);
        let prev = select_upto(cands, order, n - 1);
        let c = cands[order[n - 1] as int];
        if wanted(cands, prev, c) && !already_selected(cands, prev, c) {
            let cur = prev.push(order[n - 1]);
            assert(cur.drop_last() == prev);
            if part_count(c.4, g) > 0 {
                let p = lemma_part_named(c.4, g);
                assert(under_quota(cands, prev, c, p));
                lemma_words_le_collected(cands, prev, g, false);
                lemma_words_le_collected(cands, prev, g, true);
            }
        }
    }
}

/// Each kanji is exemplified by at most `MAX_VOCAB_PER_KANJI` selected words, and by at most one
/// selected single-character word, so that its slots go mostly to compounds.
pub proof fn law_at_most_quota_words_per_kanji(cands: Seq<CandView>, g: Seq<char>)
    ensures
        words_with(cands, spec_selection(cands), g, false) <= MAX_VOCAB_PER_KANJI,
        words_with(cands, spec_selection(cands), g, true) <= 1,
{
    lemma_sorted_elems(positions(cands.len() as int), cand_keys(cands));
    lemma_quota(cands, cand_order(cands), g, cands.len() as int);
}

/// Every candidate among the first `n` words has kanji parts and a surface of at most four
/// characters.
proof fn lemma_cands_short(
    n5: Seq<String>,
    stored: Seq<StoredReadings>,
    levels: Seq<(String, i64)>,
    src: VocabSources,
    n: int,
)
    requires
        0 <= n <= src.words@.len(),
    ensures
        forall|k: int| 0 <= k < all_cands(n5, stored, levels, src, n).len() ==> {
            &&& (#[trigger] all_cands(n5, stored, levels, src, n)[k]).1.len() <= 4
            &&& all_cands(n5, stored, levels, src, n)[k].4.len() > 0
        },
    decreases n,
{
    if n > 0 {
        lemma_cands_short(n5, stored, levels, src, n - 1);
        let prev = all_cands(n5, stored, levels, src, n - 1);
        let cur = all_cands(n5, stored, levels, src, n);
        assert forall|k: int| 0 <= k < cur.len() implies (#[trigger] cur[k]).1.len() <= 4 && cur[k].4.len() > 0 by {
            if k < prev.len() {
                assert(cur[k] == prev[k]);
            }
        }
    }
}

/// Every selected word has at least one kanji part and a surface of at most four characters
/// (longer compounds are never vocabulary).
pub proof fn law_selected_words_are_short(
    n5: Seq<String>,
    stored: Seq<StoredReadings>,
    levels: Seq<(String, i64)>,
    src: VocabSources,
    k: int,
)
    requires
        spec_candidates(n5, stored, levels, src).len() <= usize::MAX,
        0 <= k < spec_selection(spec_candidates(n5, stored, levels, src)).len(),
    ensures
        ({
            let cands = spec_candidates(n5, stored, levels, src);
            let c = cands[spec_selection(cands)[k] as int];
            &&& 0 <= spec_selection(cands)[k] < cands.len()
            &&& c.1.len() <= 4
            &&& c.4.len() > 0
        }),
{
    let cands = spec_candidates(n5, stored, levels, src);
    let order = cand_order(cands);
    let n = cands.len() as int;
    let ps = positions(n);
    let keys = cand_keys(cands);
    lemma_sorted_elems(ps, keys);
    lemma_select_pos(cands, order, n);
    let pos = select_pos(cands, order, n);
    let pk = pos[k];
    lemma_sorted_contains(ps, keys, pk);
    let w = choose|w: int| 0 <= w < ps.len() && ps[w] == order[pk];
    assert(spec_selection(cands)[k] == order[pk]);
    lemma_cands_short(n5, stored, levels, src, src.words@.len() as int);
}

} // verus!
