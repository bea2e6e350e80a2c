//! The source files as JSON values, and what the seed builder reads out of them: dictionary
//! words, furigana alignments, JLPT word levels, kanji records and the authored content.
//!
//! Every reader walks the value the way a lenient JSON accessor does: a member that is missing
//! or of another type counts as absent, and an item that lacks a required member is skipped.

use vstd::prelude::*;
use crate::text::str_eq;
use crate::content::opt_view;
use crate::vocab::{FuriganaEntry, JmWord, KanaForm, KanjiForm};
use crate::pipeline::{
    KanjiRow, components_for, components_of, krad_view, normalize_keyword, spec_normalize_keyword,
};

verus! {

/// A JSON value. Integers that fit an `i64` are `Int`; every other number keeps its text.
pub enum Json {
    Null,
    Bool(bool),
    Int(i64),
    Number(String),
    Str(String),
    Array(Vec<Json>),
    Object(Vec<(String, Json)>),
}

/// An optional reference read as an optional value.
pub open spec fn od(j: Option<&Json>) -> Option<Json> {
    match j {
        Some(x) => Some(*x),
        None => None,
    }
}

/// The value of the first member named `key` among the members from position `i` on.
pub open spec fn first_member(m: Seq<(String, Json)>, key: Seq<char>, i: int) -> Option<Json>
    decreases m.len() - i,
{
    if i < 0 || i >= m.len() {
        None
    } else if m[i].0@ == key {
        Some(m[i].1)
    } else {
        first_member(m, key, i + 1)
    }
}

/// The member `key` of an object (absent for anything else).
pub open spec fn get(j: Option<Json>, key: Seq<char>) -> Option<Json> {
    match j {
        Some(Json::Object(m)) => first_member(m@, key, 0),
        _ => None,
    }
}

/// The item at position `i` of an array (absent for anything else).
pub open spec fn at(j: Option<Json>, i: int) -> Option<Json> {
    match j {
        Some(Json::Array(a)) => if 0 <= i < a@.len() {
            Some(a@[i])
        } else {
            None
        },
        _ => None,
    }
}

/// The items of an array (none for anything else).
pub open spec fn items(j: Option<Json>) -> Seq<Json> {
    match j {
        Some(Json::Array(a)) => a@,
        _ => Seq::empty(),
    }
}

/// The text of a string value.
pub open spec fn as_str(j: Option<Json>) -> Option<Seq<char>> {
    match j {
        Some(Json::Str(s)) => Some(s@),
        _ => None,
    }
}

/// The value of a boolean.
pub open spec fn as_bool(j: Option<Json>) -> Option<bool> {
    match j {
        Some(Json::Bool(b)) => Some(b),
        _ => None,
    }
}

/// The value of an integer that fits an `i64`.
pub open spec fn as_i64(j: Option<Json>) -> Option<i64> {
    match j {
        Some(Json::Int(n)) => Some(n),
        _ => None,
    }
}

/// A text, or `d` when there is none.
pub open spec fn text_or(o: Option<Seq<char>>, d: Seq<char>) -> Seq<char> {
    match o {
        Some(s) => s,
        None => d,
    }
}

/// The texts among `a`, in order (other items skipped).
pub open spec fn strings_in(a: Seq<Json>, n: int) -> Seq<Seq<char>>
    decreases n,
{
    if n <= 0 {
        Seq::empty()
    } else {
        let r = strings_in(a, n - 1);
        match as_str(Some(a[n - 1])) {
            Some(s) => r.push(s),
            None => r,
        }
    }
}

/// The texts of the array member `key` of `j` (none when it is not an array).
pub open spec fn str_array(j: Option<Json>, key: Seq<char>) -> Seq<Seq<char>> {
    let a = items(get(j, key));
    strings_in(a, a.len() as int)
}

/// The views of strings.
pub open spec fn strs_view(v: Seq<String>) -> Seq<Seq<char>> {
    v.map_values(|s: String| s@)
}

/// The member `key` of `j`.
pub fn json_get<'a>(j: Option<&'a Json>, key: &str) -> (r: Option<&'a Json>)
    ensures
        od(r) == get(od(j), key@),
{
    match j {
        Some(Json::Object(m)) => {
            let mut i: usize = 0;
            while i < m.len()
                invariant
                    i <= m@.len(),
                    od(j) == Some(Json::Object(*m)),
                    first_member(m@, key@, 0) == first_member(m@, key@, i as int),
                decreases m.len() - i,
            {
                if str_eq(m[i].0.as_str(), key) {
                    assert(first_member(m@, key@, i as int) == Some(m@[i as int].1));
                    return Some(&m[i].1);
                }
                i = i + 1;
            }
            None
        },
        _ => None,
    }
}

/// The item at position `i` of `j`.
pub fn json_at<'a>(j: Option<&'a Json>, i: usize) -> (r: Option<&'a Json>)
    ensures
        od(r) == at(od(j), i as int),
{
    match j {
        Some(Json::Array(a)) => if i < a.len() {
            Some(&a[i])
        } else {
            None
        },
        _ => None,
    }
}

/// The items of `j`, when it is an array.
pub fn json_items<'a>(j: Option<&'a Json>) -> (r: Option<&'a Vec<Json>>)
    ensures
        match r {
            Some(a) => od(j) == Some(Json::Array(*a)),
            None => !(od(j) matches Some(Json::Array(_))),
        },
{
    match j {
        Some(Json::Array(a)) => Some(a),
        _ => None,
    }
}

/// The text of `j`, when it is a string.
pub fn json_str(j: Option<&Json>) -> (r: Option<String>)
    ensures
        opt_view(r) == as_str(od(j)),
{
    match j {
        Some(Json::Str(s)) => Some(s.clone()),
        _ => None,
    }
}

/// The value of `j`, when it is a boolean.
pub fn json_bool(j: Option<&Json>) -> (r: Option<bool>)
    ensures
        r == as_bool(od(j)),
{
    match j {
        Some(Json::Bool(b)) => Some(*b),
        _ => None,
    }
}

/// The value of `j`, when it is an integer that fits an `i64`.
pub fn json_i64(j: Option<&Json>) -> (r: Option<i64>)
    ensures
        r == as_i64(od(j)),
{
    match j {
        Some(Json::Int(n)) => Some(*n),
        _ => None,
    }
}

/// The text of the member `key` of `j`, or `d`.
pub fn str_member_or(j: Option<&Json>, key: &str, d: &str) -> (r: String)
    ensures
        r@ == text_or(as_str(get(od(j), key@)), d@),
{
    match json_str(json_get(j, key)) {
        Some(s) => s,
        None => d.to_string(),
    }
}

/// The texts among the items `a`.
pub fn strings_of_items(a: &Vec<Json>) -> (r: Vec<String>)
    ensures
        strs_view(r@) == strings_in(a@, a@.len() as int),
{
    let mut r: Vec<String> = Vec::new();
    let mut i: usize = 0;
    assert(strs_view(r@) =~= Seq::<Seq<char>>::empty());
    while i < a.len()
        invariant
            i <= a@.len(),
            strs_view(r@) == strings_in(a@, i as int),
        decreases a.len() - i,
    {
        match json_str(Some(&a[i])) {
            Some(s) => {
                r.push(s);
                proof {
                    assert(strs_view(r@) =~= strings_in(a@, i as int).push(s@));
                }
            },
            None => {},
        }
        i = i + 1;
    }
    r
}

/// The texts of the array member `key` of `j`.
pub fn str_array_member(j: Option<&Json>, key: &str) -> (r: Vec<String>)
    ensures
        strs_view(r@) == str_array(od(j), key@),
{
    match json_items(json_get(j, key)) {
        Some(a) => strings_of_items(a),
        None => {
            let r: Vec<String> = Vec::new();
            assert(strs_view(r@) =~= Seq::<Seq<char>>::empty());
            r
        },
    }
}


// ---------------------------------------------------------------------------------------------
// Furigana alignments and JLPT word levels.
// ---------------------------------------------------------------------------------------------

/// A furigana entry as values: its text, reading and segments.
pub open spec fn furigana_view(f: FuriganaEntry) -> (Seq<char>, Seq<char>, Seq<(Seq<char>, Option<Seq<char>>)>) {
    (f.text@, f.reading@, f.segments@.map_values(|s: (String, Option<String>)| (s.0@, opt_view(s.1))))
}

/// A segment of an alignment: its `ruby` text (empty when missing) and its `rt` kana.
pub open spec fn segment_read(s: Json) -> (Seq<char>, Option<Seq<char>>) {
    (text_or(as_str(get(Some(s), "ruby"@)), ""@), as_str(get(Some(s), "rt"@)))
}

/// An alignment entry: its `text` and `reading` (empty when missing) and its `furigana`
/// segments (none when missing).
pub open spec fn furigana_read(e: Json) -> (Seq<char>, Seq<char>, Seq<(Seq<char>, Option<Seq<char>>)>) {
    (
        text_or(as_str(get(Some(e), "text"@)), ""@),
        text_or(as_str(get(Some(e), "reading"@)), ""@),
        items(get(Some(e), "furigana"@)).map_values(|s: Json| segment_read(s)),
    )
}

/// The alignment entries of a furigana file (an array of entries).
pub fn furigana_entries(j: &Json) -> (r: Vec<FuriganaEntry>)
    ensures
        r@.map_values(|f: FuriganaEntry| furigana_view(f)) == items(Some(*j)).map_values(|e: Json| furigana_read(e)),
{
    let mut r: Vec<FuriganaEntry> = Vec::new();
    let a = match json_items(Some(j)) {
        Some(a) => a,
        None => {
            assert(r@.map_values(|f: FuriganaEntry| furigana_view(f)) =~= items(Some(*j)).map_values(|e: Json| furigana_read(e)));
            return r;
        },
    };
    let mut i: usize = 0;
    while i < a.len()
        invariant
            i <= a@.len(),
            items(Some(*j)) == a@,
            r@.map_values(|f: FuriganaEntry| furigana_view(f)) == a@.take(i as int).map_values(|e: Json| furigana_read(e)),
        decreases a.len() - i,
    {
        let e = Some(&a[i]);
        let mut segments: Vec<(String, Option<String>)> = Vec::new();
        match json_items(json_get(e, "furigana")) {
            Some(sa) => {
                let mut k: usize = 0;
                while k < sa.len()
                    invariant
                        k <= sa@.len(),
                        segments@.map_values(|s: (String, Option<String>)| (s.0@, opt_view(s.1)))
                            == sa@.take(k as int).map_values(|s: Json| segment_read(s)),
                    decreases sa.len() - k,
                {
                    let sj = Some(&sa[k]);
                    let ghost before = segments@;
                    let seg = (str_member_or(sj, "ruby", ""), json_str(json_get(sj, "rt")));
                    assert((seg.0@, opt_view(seg.1)) == segment_read(sa@[k as int]));
                    segments.push(seg);
                    proof {
                        assert(segments@ == before.push(seg));
                        assert(sa@.take(k + 1) =~= sa@.take(k as int).push(sa@[k as int]));
                        assert(segments@.map_values(|s: (String, Option<String>)| (s.0@, opt_view(s.1)))
                            =~= before.map_values(|s: (String, Option<String>)| (s.0@, opt_view(s.1))).push(
                            (seg.0@, opt_view(seg.1))));
                        assert(segments@.map_values(|s: (String, Option<String>)| (s.0@, opt_view(s.1)))
                            =~= sa@.take(k + 1).map_values(|s: Json| segment_read(s)));
                    }
                    k = k + 1;
                }
                assert(sa@.take(sa@.len() as int) =~= sa@);
            },
            None => {
                assert(segments@.map_values(|s: (String, Option<String>)| (s.0@, opt_view(s.1)))
                    =~= items(get(Some(a@[i as int]), "furigana"@)).map_values(|s: Json| segment_read(s)));
            },
        }
        let f = FuriganaEntry {
            text: str_member_or(e, "text", ""),
            reading: str_member_or(e, "reading", ""),
            segments,
        };
        let ghost before = r@;
        assert(furigana_view(f) == furigana_read(a@[i as int]));
        r.push(f);
        proof {
            assert(r@.map_values(|f: FuriganaEntry| furigana_view(f))
                =~= before.map_values(|f: FuriganaEntry| furigana_view(f)).push(furigana_read(a@[i as int])));
            assert(a@.take(i + 1) =~= a@.take(i as int).push(a@[i as int]));
            assert(r@.map_values(|f: FuriganaEntry| furigana_view(f))
                =~= a@.take(i + 1).map_values(|e: Json| furigana_read(e)));
        }
        i = i + 1;
    }
    assert(a@.take(a@.len() as int) =~= a@);
    r
}

/// A JLPT word-list entry `[surface, _, {"frequency": {"displayValue": level}}]`, when both
/// texts are there.
pub open spec fn jlpt_read(e: Json) -> Option<(Seq<char>, Seq<char>)> {
    match (as_str(at(Some(e), 0)), as_str(get(get(at(Some(e), 2), "frequency"@), "displayValue"@))) {
        (Some(s), Some(l)) => Some((s, l)),
        _ => None,
    }
}

/// The `(surface, level label)` pairs among the first `n` entries.
pub open spec fn jlpt_upto(a: Seq<Json>, n: int) -> Seq<(Seq<char>, Seq<char>)>
    decreases n,
{
    if n <= 0 {
        Seq::empty()
    } else {
        let r = jlpt_upto(a, n - 1);
        match jlpt_read(a[n - 1]) {
            Some(p) => r.push(p),
            None => r,
        }
    }
}

/// Pairs of strings as values.
pub open spec fn pairs_view(v: Seq<(String, String)>) -> Seq<(Seq<char>, Seq<char>)> {
    v.map_values(|p: (String, String)| (p.0@, p.1@))
}

/// The `(surface, level label)` pairs of a JLPT word-list file (an array of entries).
pub fn jlpt_entries(j: &Json) -> (r: Vec<(String, String)>)
    ensures
        pairs_view(r@) == jlpt_upto(items(Some(*j)), items(Some(*j)).len() as int),
{
    let mut r: Vec<(String, String)> = Vec::new();
    let a = match json_items(Some(j)) {
        Some(a) => a,
        None => {
            assert(pairs_view(r@) =~= Seq::<(Seq<char>, Seq<char>)>::empty());
            return r;
        },
    };
    let mut i: usize = 0;
    while i < a.len()
        invariant
            i <= a@.len(),
            items(Some(*j)) == a@,
            pairs_view(r@) == jlpt_upto(a@, i as int),
        decreases a.len() - i,
    {
        let e = Some(&a[i]);
        let surface = json_str(json_at(e, 0));
        let label = json_str(json_get(json_get(json_at(e, 2), "frequency"), "displayValue"));
        match (surface, label) {
            (Some(s), Some(l)) => {
                r.push((s, l));
                proof {
                    assert(pairs_view(r@) =~= jlpt_upto(a@, i as int).push((s@, l@)));
                }
            },
            _ => {},
        }
        i = i + 1;
    }
    r
}


// ---------------------------------------------------------------------------------------------
// Dictionary words.
// ---------------------------------------------------------------------------------------------

/// A boolean, or `false` when there is none.
pub open spec fn bool_or_false(o: Option<bool>) -> bool {
    match o {
        Some(b) => b,
        None => false,
    }
}

/// A written form: its `text`, and whether it is `common` (false when missing).
pub open spec fn kanji_form_read(k: Json) -> (Option<Seq<char>>, bool) {
    (as_str(get(Some(k), "text"@)), bool_or_false(as_bool(get(Some(k), "common"@))))
}

/// The written forms a kana form is restricted to: the texts of its `appliesToKanji` array,
/// or none when it has no such array.
pub open spec fn applies_read(k: Json) -> Option<Seq<Seq<char>>> {
    match get(Some(k), "appliesToKanji"@) {
        Some(Json::Array(a)) => Some(strings_in(a@, a@.len() as int)),
        _ => None,
    }
}

/// A kana form: its `text`, whether it is `common`, and its restriction.
pub open spec fn kana_form_read(k: Json) -> (Option<Seq<char>>, bool, Option<Seq<Seq<char>>>) {
    (as_str(get(Some(k), "text"@)), bool_or_false(as_bool(get(Some(k), "common"@))), applies_read(k))
}

/// The first gloss text among the senses from position `i` on: the `text` of the first item of
/// a sense's `gloss` array (empty when no sense has one).
pub open spec fn gloss_from(senses: Seq<Json>, i: int) -> Seq<char>
    decreases senses.len() - i,
{
    if i < 0 || i >= senses.len() {
        ""@
    } else {
        match as_str(get(at(get(Some(senses[i]), "gloss"@), 0), "text"@)) {
            Some(g) => g,
            None => gloss_from(senses, i + 1),
        }
    }
}

/// A dictionary word: its `kanji` and `kana` forms and its first gloss.
pub open spec fn word_read(w: Json) -> (
    Seq<(Option<Seq<char>>, bool)>,
    Seq<(Option<Seq<char>>, bool, Option<Seq<Seq<char>>>)>,
    Seq<char>,
) {
    (
        items(get(Some(w), "kanji"@)).map_values(|k: Json| kanji_form_read(k)),
        items(get(Some(w), "kana"@)).map_values(|k: Json| kana_form_read(k)),
        gloss_from(items(get(Some(w), "sense"@)), 0),
    )
}

/// A written form as values.
pub open spec fn kanji_form_view(k: KanjiForm) -> (Option<Seq<char>>, bool) {
    (opt_view(k.text), k.common)
}

/// A kana form as values.
pub open spec fn kana_form_view(k: KanaForm) -> (Option<Seq<char>>, bool, Option<Seq<Seq<char>>>) {
    (
        opt_view(k.text),
        k.common,
        match k.applies_to {
            Some(v) => Some(strs_view(v@)),
            None => None,
        },
    )
}

/// A dictionary word as values.
pub open spec fn jm_word_view(w: JmWord) -> (
    Seq<(Option<Seq<char>>, bool)>,
    Seq<(Option<Seq<char>>, bool, Option<Seq<Seq<char>>>)>,
    Seq<char>,
) {
    (w.kanji@.map_values(|k: KanjiForm| kanji_form_view(k)), w.kana@.map_values(|k: KanaForm| kana_form_view(k)), w.gloss@)
}

fn kanji_forms(j: Option<&Json>) -> (r: Vec<KanjiForm>)
    ensures
        r@.map_values(|k: KanjiForm| kanji_form_view(k)) == items(get(od(j), "kanji"@)).map_values(|k: Json| kanji_form_read(k)),
{
    let mut r: Vec<KanjiForm> = Vec::new();
    let a = match json_items(json_get(j, "kanji")) {
        Some(a) => a,
        None => {
            assert(r@.map_values(|k: KanjiForm| kanji_form_view(k)) =~= items(get(od(j), "kanji"@)).map_values(|k: Json| kanji_form_read(k)));
            return r;
        },
    };
    let mut i: usize = 0;
    while i < a.len()
        invariant
            i <= a@.len(),
            items(get(od(j), "kanji"@)) == a@,
            r@.map_values(|k: KanjiForm| kanji_form_view(k)) == a@.take(i as int).map_values(|k: Json| kanji_form_read(k)),
        decreases a.len() - i,
    {
        let kj = Some(&a[i]);
        let common = match json_bool(json_get(kj, "common")) {
            Some(b) => b,
            None => false,
        };
        let f = KanjiForm { text: json_str(json_get(kj, "text")), common };
        let ghost before = r@;
        assert(kanji_form_view(f) == kanji_form_read(a@[i as int]));
        r.push(f);
        proof {
            assert(a@.take(i + 1) =~= a@.take(i as int).push(a@[i as int]));
            assert(r@.map_values(|k: KanjiForm| kanji_form_view(k))
                =~= before.map_values(|k: KanjiForm| kanji_form_view(k)).push(kanji_form_read(a@[i as int])));
        }
        i = i + 1;
    }
    assert(a@.take(a@.len() as int) =~= a@);
    r
}

fn kana_forms(j: Option<&Json>) -> (r: Vec<KanaForm>)
    ensures
        r@.map_values(|k: KanaForm| kana_form_view(k)) == items(get(od(j), "kana"@)).map_values(|k: Json| kana_form_read(k)),
{
    let mut r: Vec<KanaForm> = Vec::new();
    let a = match json_items(json_get(j, "kana")) {
        Some(a) => a,
        None => {
            assert(r@.map_values(|k: KanaForm| kana_form_view(k)) =~= items(get(od(j), "kana"@)).map_values(|k: Json| kana_form_read(k)));
            return r;
        },
    };
    let mut i: usize = 0;
    while i < a.len()
        invariant
            i <= a@.len(),
            items(get(od(j), "kana"@)) == a@,
            r@.map_values(|k: KanaForm| kana_form_view(k)) == a@.take(i as int).map_values(|k: Json| kana_form_read(k)),
        decreases a.len() - i,
    {
        let kj = Some(&a[i]);
        let common = match json_bool(json_get(kj, "common")) {
            Some(b) => b,
            None => false,
        };
        let applies_to = match json_items(json_get(kj, "appliesToKanji")) {
            Some(ap) => Some(strings_of_items(ap)),
            None => None,
        };
        let f = KanaForm { text: json_str(json_get(kj, "text")), common, applies_to };
        let ghost before = r@;
        assert(kana_form_view(f) == kana_form_read(a@[i as int]));
        r.push(f);
        proof {
            assert(a@.take(i + 1) =~= a@.take(i as int).push(a@[i as int]));
            assert(r@.map_values(|k: KanaForm| kana_form_view(k))
                =~= before.map_values(|k: KanaForm| kana_form_view(k)).push(kana_form_read(a@[i as int])));
        }
        i = i + 1;
    }
    assert(a@.take(a@.len() as int) =~= a@);
    r
}

fn first_gloss(j: Option<&Json>) -> (r: String)
    ensures
        r@ == gloss_from(items(get(od(j), "sense"@)), 0),
{
    let a = match json_items(json_get(j, "sense")) {
        Some(a) => a,
        None => {
            return "".to_string();
        },
    };
    let mut i: usize = 0;
    while i < a.len()
        invariant
            i <= a@.len(),
            items(get(od(j), "sense"@)) == a@,
            gloss_from(a@, 0) == gloss_from(a@, i as int),
        decreases a.len() - i,
    {
        match json_str(json_get(json_at(json_get(Some(&a[i]), "gloss"), 0), "text")) {
            Some(g) => {
                return g;
            },
            None => {},
        }
        i = i + 1;
    }
    "".to_string()
}

/// The words of a dictionary file (an object whose `words` member is an array of words).
pub fn jm_words(j: &Json) -> (r: Vec<JmWord>)
    ensures
        r@.map_values(|w: JmWord| jm_word_view(w)) == items(get(Some(*j), "words"@)).map_values(|w: Json| word_read(w)),
{
    let mut r: Vec<JmWord> = Vec::new();
    let a = match json_items(json_get(Some(j), "words")) {
        Some(a) => a,
        None => {
            assert(r@.map_values(|w: JmWord| jm_word_view(w)) =~= items(get(Some(*j), "words"@)).map_values(|w: Json| word_read(w)));
            return r;
        },
    };
    let mut i: usize = 0;
    while i < a.len()
        invariant
            i <= a@.len(),
            items(get(Some(*j), "words"@)) == a@,
            r@.map_values(|w: JmWord| jm_word_view(w)) == a@.take(i as int).map_values(|w: Json| word_read(w)),
        decreases a.len() - i,
    {
        let wj = Some(&a[i]);
        let w = JmWord { kanji: kanji_forms(wj), kana: kana_forms(wj), gloss: first_gloss(wj) };
        let ghost before = r@;
        assert(jm_word_view(w) == word_read(a@[i as int]));
        r.push(w);
        proof {
            assert(a@.take(i + 1) =~= a@.take(i as int).push(a@[i as int]));
            assert(r@.map_values(|w: JmWord| jm_word_view(w))
                =~= before.map_values(|w: JmWord| jm_word_view(w)).push(word_read(a@[i as int])));
        }
        i = i + 1;
    }
    assert(a@.take(a@.len() as int) =~= a@);
    r
}


// ---------------------------------------------------------------------------------------------
// Kanji records.
// ---------------------------------------------------------------------------------------------

/// The members of an object (none for anything else).
pub open spec fn members(j: Option<Json>) -> Seq<(String, Json)> {
    match j {
        Some(Json::Object(m)) => m@,
        _ => Seq::empty(),
    }
}

/// Each kanji of a kanji-data object (keyed by glyph) with its `jlpt_new` level, if it has one.
pub open spec fn level_entry_read(m: (String, Json)) -> (Seq<char>, Option<i64>) {
    (m.0@, as_i64(get(Some(m.1), "jlpt_new"@)))
}

/// Every member of a kanji-data object as `(glyph, level)`, in member order.
pub fn kanji_level_entries(j: &Json) -> (r: Vec<(String, Option<i64>)>)
    ensures
        r@.map_values(|e: (String, Option<i64>)| (e.0@, e.1)) == members(Some(*j)).map_values(
            |m: (String, Json)| level_entry_read(m),
        ),
{
    let mut r: Vec<(String, Option<i64>)> = Vec::new();
    let m = match j {
        Json::Object(m) => m,
        _ => {
            assert(r@.map_values(|e: (String, Option<i64>)| (e.0@, e.1)) =~= members(Some(*j)).map_values(
                |m: (String, Json)| level_entry_read(m),
            ));
            return r;
        },
    };
    let mut i: usize = 0;
    while i < m.len()
        invariant
            i <= m@.len(),
            members(Some(*j)) == m@,
            r@.map_values(|e: (String, Option<i64>)| (e.0@, e.1)) == m@.take(i as int).map_values(
                |m: (String, Json)| level_entry_read(m),
            ),
        decreases m.len() - i,
    {
        let e = (m[i].0.clone(), json_i64(json_get(Some(&m[i].1), "jlpt_new")));
        let ghost before = r@;
        assert((e.0@, e.1) == level_entry_read(m@[i as int]));
        r.push(e);
        proof {
            assert(m@.take(i + 1) =~= m@.take(i as int).push(m@[i as int]));
            assert(r@.map_values(|e: (String, Option<i64>)| (e.0@, e.1)) =~= before.map_values(
                |e: (String, Option<i64>)| (e.0@, e.1),
            ).push(level_entry_read(m@[i as int])));
        }
        i = i + 1;
    }
    assert(m@.take(m@.len() as int) =~= m@);
    r
}

/// The entries that have a level, as `(glyph, level)`, among the first `n`.
pub open spec fn known_levels_upto(e: Seq<(String, Option<i64>)>, n: int) -> Seq<(Seq<char>, i64)>
    decreases n,
{
    if n <= 0 {
        Seq::empty()
    } else {
        let r = known_levels_upto(e, n - 1);
        match e[n - 1].1 {
            Some(l) => r.push((e[n - 1].0@, l)),
            None => r,
        }
    }
}

/// The entries that have a level, as `(glyph, level)`.
pub fn known_levels(e: &Vec<(String, Option<i64>)>) -> (r: Vec<(String, i64)>)
    ensures
        r@.map_values(|p: (String, i64)| (p.0@, p.1)) == known_levels_upto(e@, e@.len() as int),
{
    let mut r: Vec<(String, i64)> = Vec::new();
    let mut i: usize = 0;
    assert(r@.map_values(|p: (String, i64)| (p.0@, p.1)) =~= Seq::<(Seq<char>, i64)>::empty());
    while i < e.len()
        invariant
            i <= e@.len(),
            r@.map_values(|p: (String, i64)| (p.0@, p.1)) == known_levels_upto(e@, i as int),
        decreases e.len() - i,
    {
        match e[i].1 {
            Some(l) => {
                let ghost before = r@;
                r.push((e[i].0.clone(), l));
                proof {
                    assert(r@.map_values(|p: (String, i64)| (p.0@, p.1)) =~= before.map_values(
                        |p: (String, i64)| (p.0@, p.1),
                    ).push((e@[i as int].0@, l)));
                }
            },
            None => {},
        }
        i = i + 1;
    }
    r
}

/// The keyword source of a kanji: its first meaning (empty when it has none).
pub open spec fn first_or_empty(v: Seq<Seq<char>>) -> Seq<char> {
    if v.len() > 0 {
        v[0]
    } else {
        ""@
    }
}

/// The row of kanji `glyph` of level `level_id`, from its record in a kanji-data object (an
/// absent record reads as one without members) and its components in a decomposition file.
pub fn kanji_row(j: &Json, glyph: &String, level_id: i64, krad: &Vec<(String, Vec<String>)>) -> (r: KanjiRow)
    ensures
        ({
            let info = get(Some(*j), glyph@);
            &&& r.glyph@ == glyph@
            &&& r.level_id == level_id
            &&& r.strokes == as_i64(get(info, "strokes"@))
            &&& r.freq == as_i64(get(info, "freq"@))
            &&& strs_view(r.meanings@) == str_array(info, "meanings"@)
            &&& r.keyword@ == spec_normalize_keyword(first_or_empty(str_array(info, "meanings"@)))
            &&& strs_view(r.on@) == str_array(info, "readings_on"@)
            &&& strs_view(r.kun@) == str_array(info, "readings_kun"@)
            &&& strs_view(r.components@) == components_for(krad_view(krad@), glyph@)
        }),
{
    let info = json_get(Some(j), glyph.as_str());
    let meanings = str_array_member(info, "meanings");
    let keyword = if meanings.len() > 0 {
        normalize_keyword(meanings[0].as_str())
    } else {
        normalize_keyword("")
    };
    let components = components_of(krad, glyph);
    proof {
        assert(strs_view(components@) =~= components@.map_values(|x: String| x@));
    }
    KanjiRow {
        glyph: glyph.clone(),
        level_id,
        strokes: json_i64(json_get(info, "strokes")),
        freq: json_i64(json_get(info, "freq")),
        keyword,
        meanings,
        on: str_array_member(info, "readings_on"),
        kun: str_array_member(info, "readings_kun"),
        components,
    }
}


// ---------------------------------------------------------------------------------------------
// Authored content.
// ---------------------------------------------------------------------------------------------

/// The text member `key` of `e`.
pub open spec fn text_at(e: Json, key: Seq<char>) -> Option<Seq<char>> {
    as_str(get(Some(e), key))
}

/// A reading actor: `(reading, vowel length, actor name, note)`, the vowel length `"long"` when
/// missing; only entries with a reading and an actor name count.
pub open spec fn reading_actor_read(e: Json) -> Option<(Seq<char>, Seq<char>, Seq<char>, Option<Seq<char>>)> {
    match (text_at(e, "reading"@), text_at(e, "actor_name"@)) {
        (Some(r), Some(n)) => Some((r, text_or(text_at(e, "vowel_length"@), "long"@), n, text_at(e, "note"@))),
        _ => None,
    }
}

/// The reading actors among the first `n` entries.
pub open spec fn reading_actors_upto(a: Seq<Json>, n: int) -> Seq<(Seq<char>, Seq<char>, Seq<char>, Option<Seq<char>>)>
    decreases n,
{
    if n <= 0 {
        Seq::empty()
    } else {
        let r = reading_actors_upto(a, n - 1);
        match reading_actor_read(a[n - 1]) {
            Some(x) => r.push(x),
            None => r,
        }
    }
}

/// The reading actors of an authored file (an array of entries).
pub fn reading_actors(j: &Json) -> (r: Vec<(String, String, String, Option<String>)>)
    ensures
        r@.map_values(|x: (String, String, String, Option<String>)| (x.0@, x.1@, x.2@, opt_view(x.3)))
            == reading_actors_upto(items(Some(*j)), items(Some(*j)).len() as int),
{
    let mut r: Vec<(String, String, String, Option<String>)> = Vec::new();
    assert(r@.map_values(|x: (String, String, String, Option<String>)| (x.0@, x.1@, x.2@, opt_view(x.3)))
        =~= Seq::<(Seq<char>, Seq<char>, Seq<char>, Option<Seq<char>>)>::empty());
    let a = match json_items(Some(j)) {
        Some(a) => a,
        None => {
            return r;
        },
    };
    let mut i: usize = 0;
    while i < a.len()
        invariant
            i <= a@.len(),
            items(Some(*j)) == a@,
            r@.map_values(|x: (String, String, String, Option<String>)| (x.0@, x.1@, x.2@, opt_view(x.3)))
                == reading_actors_upto(a@, i as int),
        decreases a.len() - i,
    {
        let e = Some(&a[i]);
        match (json_str(json_get(e, "reading")), json_str(json_get(e, "actor_name"))) {
            (Some(rd), Some(name)) => {
                let x = (rd, str_member_or(e, "vowel_length", "long"), name, json_str(json_get(e, "note")));
                let ghost before = r@;
                r.push(x);
                proof {
                    assert(r@.map_values(|x: (String, String, String, Option<String>)| (x.0@, x.1@, x.2@, opt_view(x.3)))
                        =~= before.map_values(|x: (String, String, String, Option<String>)| (x.0@, x.1@, x.2@, opt_view(x.3)))
                        .push((x.0@, x.1@, x.2@, opt_view(x.3))));
                }
            },
            _ => {},
        }
        i = i + 1;
    }
    r
}

/// A keyword override: `(glyph, keyword)`, when both are there.
pub open spec fn keyword_read(e: Json) -> Option<(Seq<char>, Seq<char>)> {
    match (text_at(e, "glyph"@), text_at(e, "keyword"@)) {
        (Some(g), Some(k)) => Some((g, k)),
        _ => None,
    }
}

/// The keyword overrides among the first `n` entries.
pub open spec fn keywords_upto(a: Seq<Json>, n: int) -> Seq<(Seq<char>, Seq<char>)>
    decreases n,
{
    if n <= 0 {
        Seq::empty()
    } else {
        let r = keywords_upto(a, n - 1);
        match keyword_read(a[n - 1]) {
            Some(x) => r.push(x),
            None => r,
        }
    }
}

/// The keyword overrides of an authored file (an array of entries).
pub fn keyword_overrides(j: &Json) -> (r: Vec<(String, String)>)
    ensures
        pairs_view(r@) == keywords_upto(items(Some(*j)), items(Some(*j)).len() as int),
{
    let mut r: Vec<(String, String)> = Vec::new();
    assert(pairs_view(r@) =~= Seq::<(Seq<char>, Seq<char>)>::empty());
    let a = match json_items(Some(j)) {
        Some(a) => a,
        None => {
            return r;
        },
    };
    let mut i: usize = 0;
    while i < a.len()
        invariant
            i <= a@.len(),
            items(Some(*j)) == a@,
            pairs_view(r@) == keywords_upto(a@, i as int),
        decreases a.len() - i,
    {
        let e = Some(&a[i]);
        match (json_str(json_get(e, "glyph")), json_str(json_get(e, "keyword"))) {
            (Some(g), Some(k)) => {
                r.push((g, k));
                proof {
                    assert(pairs_view(r@) =~= keywords_upto(a@, i as int).push((g@, k@)));
                }
            },
            _ => {},
        }
        i = i + 1;
    }
    r
}

/// A component actor: `(component, actor name, image)`, the image empty when missing; only
/// entries with a component and an actor name count.
pub open spec fn component_actor_read(e: Json) -> Option<(Seq<char>, Seq<char>, Seq<char>)> {
    match (text_at(e, "component"@), text_at(e, "actor_name"@)) {
        (Some(c), Some(n)) => Some((c, n, text_or(text_at(e, "image"@), ""@))),
        _ => None,
    }
}

/// The component actors among the first `n` entries.
pub open spec fn component_actors_upto(a: Seq<Json>, n: int) -> Seq<(Seq<char>, Seq<char>, Seq<char>)>
    decreases n,
{
    if n <= 0 {
        Seq::empty()
    } else {
        let r = component_actors_upto(a, n - 1);
        match component_actor_read(a[n - 1]) {
            Some(x) => r.push(x),
            None => r,
        }
    }
}

/// The component actors of an authored file (an array of entries).
pub fn component_actors(j: &Json) -> (r: Vec<(String, String, String)>)
    ensures
        r@.map_values(|x: (String, String, String)| (x.0@, x.1@, x.2@))
            == component_actors_upto(items(Some(*j)), items(Some(*j)).len() as int),
{
    let mut r: Vec<(String, String, String)> = Vec::new();
    assert(r@.map_values(|x: (String, String, String)| (x.0@, x.1@, x.2@))
        =~= Seq::<(Seq<char>, Seq<char>, Seq<char>)>::empty());
    let a = match json_items(Some(j)) {
        Some(a) => a,
        None => {
            return r;
        },
    };
    let mut i: usize = 0;
    while i < a.len()
        invariant
            i <= a@.len(),
            items(Some(*j)) == a@,
            r@.map_values(|x: (String, String, String)| (x.0@, x.1@, x.2@)) == component_actors_upto(a@, i as int),
        decreases a.len() - i,
    {
        let e = Some(&a[i]);
        match (json_str(json_get(e, "component")), json_str(json_get(e, "actor_name"))) {
            (Some(c), Some(name)) => {
                let x = (c, name, str_member_or(e, "image", ""));
                let ghost before = r@;
                r.push(x);
                proof {
                    assert(r@.map_values(|x: (String, String, String)| (x.0@, x.1@, x.2@)) =~= before.map_values(
                        |x: (String, String, String)| (x.0@, x.1@, x.2@),
                    ).push((x.0@, x.1@, x.2@)));
                }
            },
            _ => {},
        }
        i = i + 1;
    }
    r
}

/// An authored mnemonic, with the position of its entry in the file.
pub struct MnemonicEntry {
    pub position: usize,
    pub glyph: String,
    pub story: String,
    pub reading_story: Option<String>,
    pub reading_actor: Option<String>,
    pub meaning_placement: Option<String>,
    pub verified: bool,
    pub imageability: Option<i64>,
    pub distinctiveness: Option<i64>,
}

/// A mnemonic as values.
pub type MnemonicView = (
    int,
    Seq<char>,
    Seq<char>,
    Option<Seq<char>>,
    Option<Seq<char>>,
    Option<Seq<char>>,
    bool,
    Option<i64>,
    Option<i64>,
);

/// A mnemonic as values.
pub open spec fn mnemonic_view(m: MnemonicEntry) -> MnemonicView {
    (
        m.position as int,
        m.glyph@,
        m.story@,
        opt_view(m.reading_story),
        opt_view(m.reading_actor),
        opt_view(m.meaning_placement),
        m.verified,
        m.imageability,
        m.distinctiveness,
    )
}

/// The mnemonic of entry `i`: its `glyph` and `story` (required), `reading_story`,
/// `reading_actor_used`, `meaning_placement`, `verified` (false when missing), `imageability`
/// and `distinctiveness`.
pub open spec fn mnemonic_read(e: Json, i: int) -> Option<MnemonicView> {
    match (text_at(e, "glyph"@), text_at(e, "story"@)) {
        (Some(g), Some(s)) => Some(
            (
                i,
                g,
                s,
                text_at(e, "reading_story"@),
                text_at(e, "reading_actor_used"@),
                text_at(e, "meaning_placement"@),
                bool_or_false(as_bool(get(Some(e), "verified"@))),
                as_i64(get(Some(e), "imageability"@)),
                as_i64(get(Some(e), "distinctiveness"@)),
            ),
        ),
        _ => None,
    }
}

/// The mnemonics among the first `n` entries.
pub open spec fn mnemonics_upto(a: Seq<Json>, n: int) -> Seq<MnemonicView>
    decreases n,
{
    if n <= 0 {
        Seq::empty()
    } else {
        let r = mnemonics_upto(a, n - 1);
        match mnemonic_read(a[n - 1], n - 1) {
            Some(x) => r.push(x),
            None => r,
        }
    }
}

/// The mnemonics of an authored file (an array of entries).
pub fn mnemonics(j: &Json) -> (r: Vec<MnemonicEntry>)
    ensures
        r@.map_values(|m: MnemonicEntry| mnemonic_view(m)) == mnemonics_upto(items(Some(*j)), items(Some(*j)).len() as int),
{
    let mut r: Vec<MnemonicEntry> = Vec::new();
    assert(r@.map_values(|m: MnemonicEntry| mnemonic_view(m)) =~= Seq::<MnemonicView>::empty());
    let a = match json_items(Some(j)) {
        Some(a) => a,
        None => {
            return r;
        },
    };
    let mut i: usize = 0;
    while i < a.len()
        invariant
            i <= a@.len(),
            items(Some(*j)) == a@,
            r@.map_values(|m: MnemonicEntry| mnemonic_view(m)) == mnemonics_upto(a@, i as int),
        decreases a.len() - i,
    {
        let e = Some(&a[i]);
        match (json_str(json_get(e, "glyph")), json_str(json_get(e, "story"))) {
            (Some(glyph), Some(story)) => {
                let verified = match json_bool(json_get(e, "verified")) {
                    Some(b) => b,
                    None => false,
                };
                let m = MnemonicEntry {
                    position: i,
                    glyph,
                    story,
                    reading_story: json_str(json_get(e, "reading_story")),
                    reading_actor: json_str(json_get(e, "reading_actor_used")),
                    meaning_placement: json_str(json_get(e, "meaning_placement")),
                    verified,
                    imageability: json_i64(json_get(e, "imageability")),
                    distinctiveness: json_i64(json_get(e, "distinctiveness")),
                };
                let ghost before = r@;
                assert(Some(mnemonic_view(m)) == mnemonic_read(a@[i as int], i as int));
                r.push(m);
                proof {
                    assert(r@.map_values(|m: MnemonicEntry| mnemonic_view(m)) =~= before.map_values(
                        |m: MnemonicEntry| mnemonic_view(m),
                    ).push(mnemonic_view(m)));
                }
            },
            _ => {},
        }
        i = i + 1;
    }
    r
}

/// The three text members `k1`, `k2`, `k3` of an entry, when all are there.
pub open spec fn triple_read(e: Json, k1: Seq<char>, k2: Seq<char>, k3: Seq<char>) -> Option<(Seq<char>, Seq<char>, Seq<char>)> {
    match (text_at(e, k1), text_at(e, k2), text_at(e, k3)) {
        (Some(a), Some(b), Some(c)) => Some((a, b, c)),
        _ => None,
    }
}

/// The triples of the first `n` entries that have all three members.
pub open spec fn triples_upto(a: Seq<Json>, k1: Seq<char>, k2: Seq<char>, k3: Seq<char>, n: int) -> Seq<(Seq<char>, Seq<char>, Seq<char>)>
    decreases n,
{
    if n <= 0 {
        Seq::empty()
    } else {
        let r = triples_upto(a, k1, k2, k3, n - 1);
        match triple_read(a[n - 1], k1, k2, k3) {
            Some(x) => r.push(x),
            None => r,
        }
    }
}

/// The text members `k1`, `k2`, `k3` of every entry of an array that has all three (such as
/// `(glyph, reading, kind)` dominant-reading overrides or `(surface, reading, gloss)` gloss
/// corrections).
pub fn string_triples(j: &Json, k1: &str, k2: &str, k3: &str) -> (r: Vec<(String, String, String)>)
    ensures
        r@.map_values(|x: (String, String, String)| (x.0@, x.1@, x.2@))
            == triples_upto(items(Some(*j)), k1@, k2@, k3@, items(Some(*j)).len() as int),
{
    let mut r: Vec<(String, String, String)> = Vec::new();
    assert(r@.map_values(|x: (String, String, String)| (x.0@, x.1@, x.2@))
        =~= Seq::<(Seq<char>, Seq<char>, Seq<char>)>::empty());
    let a = match json_items(Some(j)) {
        Some(a) => a,
        None => {
            return r;
        },
    };
    let mut i: usize = 0;
    while i < a.len()
        invariant
            i <= a@.len(),
            items(Some(*j)) == a@,
            r@.map_values(|x: (String, String, String)| (x.0@, x.1@, x.2@)) == triples_upto(a@, k1@, k2@, k3@, i as int),
        decreases a.len() - i,
    {
        let e = Some(&a[i]);
        match (json_str(json_get(e, k1)), json_str(json_get(e, k2)), json_str(json_get(e, k3))) {
            (Some(x1), Some(x2), Some(x3)) => {
                let ghost before = r@;
                r.push((x1, x2, x3));
                proof {
                    assert(r@.map_values(|x: (String, String, String)| (x.0@, x.1@, x.2@)) =~= before.map_values(
                        |x: (String, String, String)| (x.0@, x.1@, x.2@),
                    ).push((x1@, x2@, x3@)));
                }
            },
            _ => {},
        }
        i = i + 1;
    }
    r
}

} // verus!
