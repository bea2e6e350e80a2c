//! The presentation model of a kanji (what a review or the detail page shows) and the review
//! helpers built on it: the dominant reading line and the cloze prompt.

use vstd::prelude::*;
use crate::text::{chars_of, string_of, str_eq};
use crate::stroke::occurs_at;
use crate::session::{ContentView, KanjiMeta};

verus! {

/// One reading of a kanji, for display.
#[derive(Clone, Debug)]
pub struct Reading {
    /// `"on"` or `"kun"`.
    pub kind: String,
    pub reading: String,
    pub is_dominant: bool,
}

/// A vocabulary word, for display.
#[derive(Clone, Debug)]
pub struct VocabItem {
    pub surface: String,
    pub reading: String,
    pub gloss: String,
}

/// An example sentence with its translation.
#[derive(Clone, Debug)]
pub struct SentenceItem {
    pub jp: String,
    pub en: String,
}

/// A component of a kanji, with its actor if it has one.
#[derive(Clone, Debug)]
pub struct ComponentItem {
    pub glyph: String,
    pub actor: Option<String>,
    pub is_kanji: bool,
}

/// A compact row for the browse grid.
#[derive(Clone, Debug)]
pub struct BrowseItem {
    pub id: i64,
    pub glyph: String,
    pub keyword: String,
    /// JLPT label of the kanji's level (e.g. "N5"), for grouping the grid.
    pub level: String,
}

/// Everything needed to render a kanji in review or on its detail page.
#[derive(Clone, Debug)]
pub struct KanjiDetail {
    pub id: i64,
    pub glyph: String,
    pub keyword: String,
    pub stroke_count: Option<i64>,
    pub meanings: Vec<String>,
    pub readings: Vec<Reading>,
    pub vocab: Vec<VocabItem>,
    pub sentences: Vec<SentenceItem>,
    pub mnemonic: Option<String>,
    pub stroke_paths: Vec<String>,
    pub components: Vec<ComponentItem>,
}

/// The level number of a JLPT label: `"N5"` is 5 (learned first) down to `"N1"` is 1; any
/// other label is 0.
pub open spec fn spec_level_number(jlpt: Seq<char>) -> u8 {
    if jlpt == "N5"@ {
        5
    } else if jlpt == "N4"@ {
        4
    } else if jlpt == "N3"@ {
        3
    } else if jlpt == "N2"@ {
        2
    } else if jlpt == "N1"@ {
        1
    } else {
        0
    }
}

/// Map a JLPT label to its level number (5 = N5, learned first; 0 for an unknown label).
pub fn level_num(jlpt: &str) -> (n: u8)
    ensures
        n == spec_level_number(jlpt@),
{
    if str_eq(jlpt, "N5") {
        5
    } else if str_eq(jlpt, "N4") {
        4
    } else if str_eq(jlpt, "N3") {
        3
    } else if str_eq(jlpt, "N2") {
        2
    } else if str_eq(jlpt, "N1") {
        1
    } else {
        0
    }
}

/// The strings of `parts` joined with `sep` between them.
pub open spec fn join(parts: Seq<Seq<char>>, sep: Seq<char>) -> Seq<char>
    decreases parts.len(),
{
    if parts.len() == 0 {
        Seq::empty()
    } else if parts.len() == 1 {
        parts[0]
    } else {
        join(parts.drop_last(), sep) + sep + parts.last()
    }
}

/// The readings among the first `n` marked dominant, in order.
pub open spec fn dominant_readings(rs: Seq<Reading>, n: int) -> Seq<Seq<char>>
    decreases n,
{
    if n <= 0 {
        Seq::empty()
    } else {
        let r = dominant_readings(rs, n - 1);
        if rs[n - 1].is_dominant {
            r.push(rs[n - 1].reading@)
        } else {
            r
        }
    }
}

/// The dominant reading(s) of a kanji, joined with three spaces.
pub fn dominant_reading(k: &KanjiDetail) -> (s: String)
    ensures
        s@ == join(dominant_readings(k.readings@, k.readings@.len() as int), "   "@),
{
    let sep = chars_of("   ");
    let mut out: Vec<char> = Vec::new();
    let mut count: usize = 0;
    let mut i: usize = 0;
    while i < k.readings.len()
        invariant
            i <= k.readings@.len(),
            sep@ == "   "@,
            count == dominant_readings(k.readings@, i as int).len(),
            out@ == join(dominant_readings(k.readings@, i as int), sep@),
            count <= i,
        decreases k.readings.len() - i,
    {
        let r = &k.readings[i];
        if r.is_dominant {
            let rc = chars_of(r.reading.as_str());
            if count > 0 {
                let mut j: usize = 0;
                let ghost base = out@;
                while j < sep.len()
                    invariant
                        j <= sep@.len(),
                        out@ == base + sep@.take(j as int),
                    decreases sep.len() - j,
                {
                    out.push(sep[j]);
                    proof {
                        assert(out@ =~= base + sep@.take(j + 1));
                    }
                    j = j + 1;
                }
                proof {
                    assert(sep@.take(sep@.len() as int) =~= sep@);
                }
            }
            let ghost base2 = out@;
            let mut j: usize = 0;
            while j < rc.len()
                invariant
                    j <= rc@.len(),
                    out@ == base2 + rc@.take(j as int),
                decreases rc.len() - j,
            {
                out.push(rc[j]);
                proof {
                    assert(out@ =~= base2 + rc@.take(j + 1));
                }
                j = j + 1;
            }
            proof {
                assert(rc@.take(rc@.len() as int) =~= rc@);
                let prev = dominant_readings(k.readings@, i as int);
                let next = dominant_readings(k.readings@, i + 1);
                assert(next == prev.push(r.reading@));
                assert(next.drop_last() =~= prev);
                if count == 0 {
                    assert(prev.len() == 0);
                    assert(out@ =~= r.reading@);
                } else {
                    assert(out@ =~= join(prev, sep@) + sep@ + r.reading@);
                }
            }
            count = count + 1;
        }
        i = i + 1;
    }
    string_of(&out)
}

/// `pat` occurs somewhere in `s` (the empty pattern occurs everywhere).
pub open spec fn contains_seq(s: Seq<char>, pat: Seq<char>) -> bool {
    exists|i: int| occurs_at(s, pat, i)
}

/// Whether `pat` occurs in `s`.
pub fn seq_contains(s: &Vec<char>, pat: &Vec<char>) -> (b: bool)
    ensures
        b == contains_seq(s@, pat@),
{
    let m = pat.len();
    if m == 0 {
        assert(s@.subrange(0, 0) =~= pat@);
        assert(occurs_at(s@, pat@, 0));
        return true;
    }
    let mut i: usize = 0;
    while m <= s.len() && i <= s.len() - m
        invariant
            m == pat@.len() > 0,
            forall|j: int| 0 <= j < i ==> !occurs_at(s@, pat@, j),
        decreases s.len() - i,
    {
        let mut t: usize = 0;
        let mut same = true;
        while same && t < m
            invariant
                t <= m,
                m == pat@.len(),
                i + m <= s.len(),
                forall|w: int| 0 <= w < t ==> s@[i + w] == pat@[w],
                !same ==> t < m && s@[i + t] != pat@[t as int],
            decreases m - t + (if same { 1int } else { 0int }),
        {
            if s[i + t] == pat[t] {
                t = t + 1;
            } else {
                same = false;
            }
        }
        if same {
            assert(s@.subrange(i as int, i + m) =~= pat@);
            assert(occurs_at(s@, pat@, i as int));
            return true;
        }
        assert(s@.subrange(i as int, i + m)[t as int] != pat@[t as int]);
        i = i + 1;
    }
    proof {
        assert forall|p: int| !occurs_at(s@, pat@, p) by {
            if 0 <= p && p < i {
            }
        }
    }
    false
}

/// `s` with every match of the non-empty `from` replaced by `to`: matches are found from the
/// left and do not overlap (of two overlapping occurrences the first is replaced).
pub open spec fn replace_all(s: Seq<char>, from: Seq<char>, to: Seq<char>) -> Seq<char>
    decreases s.len(),
{
    if from.len() == 0 || s.len() == 0 {
        s
    } else if from.len() <= s.len() && s.take(from.len() as int) == from {
        to + replace_all(s.skip(from.len() as int), from, to)
    } else {
        seq![s[0]] + replace_all(s.drop_first(), from, to)
    }
}

/// `s` with `to` put before every character and once more at the end (what replacing an
/// empty pattern gives: it matches between every two characters and at both ends).
pub open spec fn replace_empty(s: Seq<char>, to: Seq<char>) -> Seq<char>
    decreases s.len(),
{
    if s.len() == 0 {
        to
    } else {
        to + seq![s[0]] + replace_empty(s.drop_first(), to)
    }
}

/// Every match of `from` in `s` replaced by `to`, as std's `str::replace` does it.
pub open spec fn replaced(s: Seq<char>, from: Seq<char>, to: Seq<char>) -> Seq<char> {
    if from.len() > 0 {
        replace_all(s, from, to)
    } else {
        replace_empty(s, to)
    }
}

/// Whether `f` occurs in `v` at position `i`.
fn prefix_at(v: &Vec<char>, f: &Vec<char>, i: usize) -> (b: bool)
    requires
        i + f@.len() <= v@.len(),
    ensures
        b == (v@.subrange(i as int, i + f@.len()) == f@),
{
    let n = v.len();
    let mut k: usize = 0;
    while k < f.len()
        invariant
            k <= f@.len(),
            n == v@.len(),
            i + f@.len() <= v@.len(),
            forall|j: int| 0 <= j < k ==> v@[i + j] == f@[j],
        decreases f.len() - k,
    {
        assert(i + k < n);
        if v[i + k] != f[k] {
            assert(v@.subrange(i as int, i + f@.len())[k as int] != f@[k as int]);
            return false;
        }
        k = k + 1;
    }
    assert(v@.subrange(i as int, i + f@.len()) =~= f@);
    true
}

/// `s` with every match of `from` replaced by `to` (see `replaced`).
fn str_replace(s: &str, from: &str, to: &str) -> (r: String)
    ensures
        r@ == replaced(s@, from@, to@),
{
    let v = chars_of(s);
    let f = chars_of(from);
    let mut out: Vec<char> = Vec::new();
    let mut i: usize = 0;
    proof {
        assert(v@.skip(0) =~= v@);
        assert(out@ + replace_empty(v@, to@) =~= replace_empty(v@, to@));
        assert(out@ + replace_all(v@, f@, to@) =~= replace_all(v@, f@, to@));
    }
    if f.len() == 0 {
        while i < v.len()
            invariant
                i <= v@.len(),
                v@ == s@,
                out@ + replace_empty(v@.skip(i as int), to@) == replace_empty(v@, to@),
            decreases v.len() - i,
        {
            let ghost rest = v@.skip(i as int);
            let ghost before = out@;
            assert(rest.drop_first() =~= v@.skip(i + 1));
            let mut t = chars_of(to);
            out.append(&mut t);
            out.push(v[i]);
            proof {
                assert(out@ + replace_empty(v@.skip(i + 1), to@) =~= before + (to@ + seq![rest[0]]
                    + replace_empty(rest.drop_first(), to@)));
            }
            i = i + 1;
        }
        let mut t = chars_of(to);
        out.append(&mut t);
        proof {
            assert(v@.skip(i as int) =~= Seq::<char>::empty());
        }
    } else {
        while i < v.len()
            invariant
                i <= v@.len(),
                v@ == s@,
                f@ == from@,
                f@.len() > 0,
                out@ + replace_all(v@.skip(i as int), f@, to@) == replace_all(v@, f@, to@),
            decreases v.len() - i,
        {
            let ghost rest = v@.skip(i as int);
            let ghost before = out@;
            if f.len() <= v.len() - i && prefix_at(&v, &f, i) {
                assert(rest.take(f@.len() as int) =~= v@.subrange(i as int, i + f@.len()));
                assert(rest.skip(f@.len() as int) =~= v@.skip(i + f@.len()));
                let mut t = chars_of(to);
                out.append(&mut t);
                proof {
                    assert(out@ + replace_all(v@.skip(i + f@.len()), f@, to@) =~= before + (to@
                        + replace_all(rest.skip(f@.len() as int), f@, to@)));
                }
                i = i + f.len();
            } else {
                proof {
                    if f@.len() <= rest.len() {
                        assert(rest.take(f@.len() as int) =~= v@.subrange(i as int, i + f@.len()));
                    }
                }
                assert(rest.drop_first() =~= v@.skip(i + 1));
                out.push(v[i]);
                proof {
                    assert(out@ + replace_all(v@.skip(i + 1), f@, to@) =~= before + (seq![rest[0]]
                        + replace_all(rest.drop_first(), f@, to@)));
                }
                i = i + 1;
            }
        }
        proof {
            assert(v@.skip(i as int) =~= Seq::<char>::empty());
        }
    }
    string_of(&out)
}

/// The blank that stands for the hidden word in a cloze prompt (full-width spaces around it).
pub open spec fn cloze_blank() -> Seq<char> {
    "\u{3000}____\u{3000}"@
}

/// The first vocabulary word (in order) that occurs in `jp`, among the first `n`.
pub open spec fn first_vocab_in(vocab: Seq<VocabItem>, jp: Seq<char>, n: int) -> Option<int>
    decreases n,
{
    if n <= 0 {
        None
    } else {
        match first_vocab_in(vocab, jp, n - 1) {
            Some(i) => Some(i),
            None => if contains_seq(jp, vocab[n - 1].surface@) {
                Some(n - 1)
            } else {
                None
            },
        }
    }
}

/// The first sentence (among the first `n`) that contains some vocabulary word.
pub open spec fn first_cloze_sentence(k: KanjiDetail, n: int) -> Option<int>
    decreases n,
{
    if n <= 0 {
        None
    } else {
        match first_cloze_sentence(k, n - 1) {
            Some(i) => Some(i),
            None => if first_vocab_in(k.vocab@, k.sentences@[n - 1].jp@, k.vocab@.len() as int) is Some {
                Some(n - 1)
            } else {
                None
            },
        }
    }
}

/// The cloze of a kanji: the first sentence holding a vocabulary word, with the first such
/// word blanked out, plus the full sentence and its translation; else the first sentence
/// unblanked; else nothing.
pub open spec fn spec_cloze(k: KanjiDetail) -> (Option<Seq<char>>, Option<Seq<char>>, Option<Seq<char>>) {
    match first_cloze_sentence(k, k.sentences@.len() as int) {
        Some(i) => {
            let s = k.sentences@[i];
            let v = first_vocab_in(k.vocab@, s.jp@, k.vocab@.len() as int)->0;
            (Some(replaced(s.jp@, k.vocab@[v].surface@, cloze_blank())), Some(s.jp@), Some(s.en@))
        },
        None => if k.sentences@.len() > 0 {
            (Some(k.sentences@[0].jp@), Some(k.sentences@[0].jp@), Some(k.sentences@[0].en@))
        } else {
            (None, None, None)
        },
    }
}

/// The views of an optional string.
pub open spec fn opt_view(o: Option<String>) -> Option<Seq<char>> {
    match o {
        Some(s) => Some(s@),
        None => None,
    }
}

/// Build a cloze: a sentence with the first vocab word it contains blanked out.
/// Returns (blanked, full, english).
pub fn cloze(k: &KanjiDetail) -> (r: (Option<String>, Option<String>, Option<String>))
    ensures
        (opt_view(r.0), opt_view(r.1), opt_view(r.2)) == spec_cloze(*k),
{
    let mut i: usize = 0;
    while i < k.sentences.len()
        invariant
            i <= k.sentences@.len(),
            first_cloze_sentence(*k, i as int) is None,
        decreases k.sentences.len() - i,
    {
        let s = &k.sentences[i];
        let jp = chars_of(s.jp.as_str());
        let mut j: usize = 0;
        while j < k.vocab.len()
            invariant
                j <= k.vocab@.len(),
                i < k.sentences@.len(),
                *s == k.sentences@[i as int],
                first_cloze_sentence(*k, i as int) is None,
                jp@ == s.jp@,
                first_vocab_in(k.vocab@, jp@, j as int) is None,
            decreases k.vocab.len() - j,
        {
            let v = &k.vocab[j];
            let sc = chars_of(v.surface.as_str());
            if seq_contains(&jp, &sc) {
                proof {
                    assert(first_vocab_in(k.vocab@, jp@, j + 1) == Some(j as int));
                    lemma_first_vocab_stable(k.vocab@, jp@, j + 1, k.vocab@.len() as int);
                    assert(first_cloze_sentence(*k, i + 1) == Some(i as int));
                    lemma_first_cloze_stable(*k, i + 1, k.sentences@.len() as int);
                }
                let blank = str_replace(s.jp.as_str(), v.surface.as_str(), "\u{3000}____\u{3000}");
                return (Some(blank), Some(s.jp.clone()), Some(s.en.clone()));
            }
            j = j + 1;
        }
        i = i + 1;
    }
    if k.sentences.len() > 0 {
        (Some(k.sentences[0].jp.clone()), Some(k.sentences[0].jp.clone()), Some(k.sentences[0].en.clone()))
    } else {
        (None, None, None)
    }
}

proof fn lemma_first_vocab_stable(vocab: Seq<VocabItem>, jp: Seq<char>, a: int, b: int)
    requires
        0 <= a <= b,
        first_vocab_in(vocab, jp, a) is Some,
    ensures
        first_vocab_in(vocab, jp, b) == first_vocab_in(vocab, jp, a),
    decreases b - a,
{
    if b > a {
        lemma_first_vocab_stable(vocab, jp, a, b - 1);
    }
}

proof fn lemma_first_cloze_stable(k: KanjiDetail, a: int, b: int)
    requires
        0 <= a <= b,
        first_cloze_sentence(k, a) is Some,
    ensures
        first_cloze_sentence(k, b) == first_cloze_sentence(k, a),
    decreases b - a,
{
    if b > a {
        lemma_first_cloze_stable(k, a, b - 1);
    }
}


// ---------------------------------------------------------------------------------------------
// The scheduling view of the seed.
// ---------------------------------------------------------------------------------------------

/// The prerequisites of kanji `id` among the first `n` (kanji, prerequisite) edges, in order.
pub open spec fn prereqs_of(edges: Seq<(i64, i64)>, id: i64, n: int) -> Seq<i64>
    decreases n,
{
    if n <= 0 {
        Seq::empty()
    } else if edges[n - 1].0 == id {
        prereqs_of(edges, id, n - 1).push(edges[n - 1].1)
    } else {
        prereqs_of(edges, id, n - 1)
    }
}

/// The scheduling entry of a seed kanji row `(id, JLPT label, learning rank)`: its level number,
/// its rank (0 when unranked), and its prerequisite kanji from `edges`.
pub open spec fn meta_of(row: (i64, String, Option<i64>), edges: Seq<(i64, i64)>, m: KanjiMeta) -> bool {
    &&& m.id == row.0
    &&& m.level == spec_level_number(row.1@)
    &&& m.intro_rank == match row.2 {
        Some(r) => r,
        None => 0,
    }
    &&& m.prereq_kanji@ == prereqs_of(edges, row.0, edges.len() as int)
}

/// The curriculum the engine schedules over, from the seed's kanji rows (in learning order) and
/// its (kanji, prerequisite kanji) edges.
pub fn content_view_from(rows: &Vec<(i64, String, Option<i64>)>, edges: &Vec<(i64, i64)>) -> (c: ContentView)
    ensures
        c.kanji@.len() == rows@.len(),
        forall|i: int| 0 <= i < rows@.len() ==> meta_of(rows@[i], edges@, #[trigger] c.kanji@[i]),
{
    let mut kanji: Vec<KanjiMeta> = Vec::new();
    let mut i: usize = 0;
    while i < rows.len()
        invariant
            i <= rows@.len(),
            kanji@.len() == i,
            forall|k: int| 0 <= k < i ==> meta_of(rows@[k], edges@, #[trigger] kanji@[k]),
        decreases rows.len() - i,
    {
        let id = rows[i].0;
        let mut pre: Vec<i64> = Vec::new();
        let mut j: usize = 0;
        while j < edges.len()
            invariant
                j <= edges@.len(),
                pre@ == prereqs_of(edges@, id, j as int),
            decreases edges.len() - j,
        {
            if edges[j].0 == id {
                pre.push(edges[j].1);
            }
            j = j + 1;
        }
        let rank = match rows[i].2 {
            Some(r) => r,
            None => 0,
        };
        kanji.push(KanjiMeta { id, level: level_num(rows[i].1.as_str()), intro_rank: rank, prereq_kanji: pre });
        i = i + 1;
    }
    ContentView { kanji }
}

} // verus!
