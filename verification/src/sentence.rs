//! Example sentences for in-context reading and cloze practice.
//!
//! Dictionary words carry example sentences, each a Japanese sentence with its English
//! translation. For every wanted vocabulary surface the library keeps the shortest few
//! translated sentences that contain it and fall within a length band.

use vstd::prelude::*;
use crate::text::{chars_of, string_of, str_eq};
use crate::content::{contains_seq, seq_contains};
use crate::vocab::{contains_view, set_contains};
use crate::order::{sorted_stable, stable_sort_indices, lemma_sorted_elems, lemma_sorted_contains,
    lemma_sorted_stable_sorted, idx_le};

verus! {

/// Most sentences kept per word.
pub const MAX_SENTENCES_PER_WORD: usize = 2;
/// Shortest Japanese sentence kept, in characters.
pub const MIN_LEN: usize = 6;
/// Longest Japanese sentence kept, in characters.
pub const MAX_LEN: usize = 40;

/// A chosen example sentence.
pub struct Sentence {
    pub jp: String,
    pub en: String,
    pub source: String,
}

/// One example of a dictionary word: the identifier of its source, and its sentences as
/// `(language, text)` pairs (`"jpn"`, `"eng"`, ...).
pub struct Example {
    pub source: String,
    pub sentences: Vec<(String, String)>,
}

/// A dictionary word with examples: its written forms, and the examples of all its senses in
/// order.
pub struct ExampleWord {
    pub kanji: Vec<String>,
    pub examples: Vec<Example>,
}

/// A sentence as values: (Japanese, English, source).
pub type SentView = (Seq<char>, Seq<char>, Seq<char>);

/// A candidate: the surface it is for, and the sentence.
pub type Emit = (Seq<char>, SentView);

/// A sentence as values.
pub open spec fn sent_view(s: Sentence) -> SentView {
    (s.jp@, s.en@, s.source@)
}

/// A candidate as values.
pub open spec fn emit_view(e: (String, Sentence)) -> Emit {
    (e.0@, sent_view(e.1))
}

/// The text of the first sentence in language `lang`.
pub open spec fn first_text(sents: Seq<(String, String)>, lang: Seq<char>) -> Option<Seq<char>>
    decreases sents.len(),
{
    if sents.len() == 0 {
        None
    } else if sents[0].0@ == lang {
        Some(sents[0].1@)
    } else {
        first_text(sents.drop_first(), lang)
    }
}

/// The example's Japanese sentence and English translation, when it has both.
pub open spec fn ex_pair(ex: Example) -> Option<(Seq<char>, Seq<char>)> {
    match (first_text(ex.sentences@, "jpn"@), first_text(ex.sentences@, "eng"@)) {
        (Some(jp), Some(en)) => Some((jp, en)),
        _ => None,
    }
}

/// The length band of kept sentences.
pub open spec fn in_band(jp: Seq<char>) -> bool {
    MIN_LEN <= jp.len() <= MAX_LEN
}

/// The source label of an example.
pub open spec fn source_label(ex: Example) -> Seq<char> {
    "tatoeba:"@ + ex.source@
}

/// The wanted ones among the first `n` written forms of a word.
pub open spec fn wanted_surfaces(kanji: Seq<String>, wanted: Seq<String>, n: int) -> Seq<Seq<char>>
    decreases n,
{
    if n <= 0 {
        Seq::empty()
    } else {
        let prev = wanted_surfaces(kanji, wanted, n - 1);
        if contains_view(wanted, kanji[n - 1]@) {
            prev.push(kanji[n - 1]@)
        } else {
            prev
        }
    }
}

/// The candidates an example yields for the first `k` surfaces: one per surface that its
/// Japanese sentence contains, when it has a translation and falls within the band.
pub open spec fn example_emits(ss: Seq<Seq<char>>, ex: Example, k: int) -> Seq<Emit>
    decreases k,
{
    if k <= 0 {
        Seq::empty()
    } else {
        let prev = example_emits(ss, ex, k - 1);
        match ex_pair(ex) {
            Some((jp, en)) => if in_band(jp) && contains_seq(jp, ss[k - 1]) {
                prev.push((ss[k - 1], (jp, en, source_label(ex))))
            } else {
                prev
            },
            None => prev,
        }
    }
}

/// The candidates of the first `m` examples of a word.
pub open spec fn word_emits(w: ExampleWord, wanted: Seq<String>, m: int) -> Seq<Emit>
    decreases m,
{
    if m <= 0 {
        Seq::empty()
    } else {
        let ss = wanted_surfaces(w.kanji@, wanted, w.kanji@.len() as int);
        word_emits(w, wanted, m - 1) + example_emits(ss, w.examples@[m - 1], ss.len() as int)
    }
}

/// The candidates of the first `n` words.
pub open spec fn all_emits(words: Seq<ExampleWord>, wanted: Seq<String>, n: int) -> Seq<Emit>
    decreases n,
{
    if n <= 0 {
        Seq::empty()
    } else {
        all_emits(words, wanted, n - 1) + word_emits(words[n - 1], wanted, words[n - 1].examples@.len() as int)
    }
}

/// The key a candidate is told apart by: surface, a U+0001 separator, and the Japanese text.
pub open spec fn emit_key(e: Emit) -> Seq<char> {
    e.0 + seq!['\u{1}'] + e.1.0
}

/// The first `n` candidates without repeats: a candidate is dropped when one with its key was
/// kept before.
pub open spec fn kept_upto(es: Seq<Emit>, n: int) -> Seq<Emit>
    decreases n,
{
    if n <= 0 {
        Seq::empty()
    } else {
        let prev = kept_upto(es, n - 1);
        if exists|j: int| 0 <= j < prev.len() && emit_key(#[trigger] prev[j]) == emit_key(es[n - 1]) {
            prev
        } else {
            prev.push(es[n - 1])
        }
    }
}

/// The surfaces of the first `n` kept candidates, each once, in order of first appearance.
pub open spec fn surfaces_upto(kept: Seq<Emit>, n: int) -> Seq<Seq<char>>
    decreases n,
{
    if n <= 0 {
        Seq::empty()
    } else {
        let prev = surfaces_upto(kept, n - 1);
        if prev.contains(kept[n - 1].0) {
            prev
        } else {
            prev.push(kept[n - 1].0)
        }
    }
}

/// Positions among the first `n` kept candidates of those for surface `s`.
pub open spec fn group(kept: Seq<Emit>, s: Seq<char>, n: int) -> Seq<usize>
    decreases n,
{
    if n <= 0 {
        Seq::empty()
    } else if kept[n - 1].0 == s {
        group(kept, s, n - 1).push((n - 1) as usize)
    } else {
        group(kept, s, n - 1)
    }
}

/// Sort key of each kept candidate: the length of its Japanese sentence.
pub open spec fn len_keys(kept: Seq<Emit>) -> Seq<(i128, u64)> {
    Seq::new(kept.len(), |k: int| (kept[k].1.0.len() as i128, 0u64))
}

/// The kept candidates chosen for surface `s`: the shortest `MAX_SENTENCES_PER_WORD` (ties in
/// candidate order).
pub open spec fn chosen(kept: Seq<Emit>, s: Seq<char>) -> Seq<usize> {
    let sorted = sorted_stable(group(kept, s, kept.len() as int), len_keys(kept));
    if sorted.len() <= MAX_SENTENCES_PER_WORD {
        sorted
    } else {
        sorted.take(MAX_SENTENCES_PER_WORD as int)
    }
}

/// The sentences for every wanted surface that has one, in order of first appearance.
pub open spec fn spec_sentences(words: Seq<ExampleWord>, wanted: Seq<String>) -> Seq<(Seq<char>, Seq<SentView>)> {
    let es = all_emits(words, wanted, words.len() as int);
    let kept = kept_upto(es, es.len() as int);
    surfaces_upto(kept, kept.len() as int).map_values(|s: Seq<char>| (s, chosen(kept, s).map_values(|k: usize| kept[k as int].1)))
}

/// The result as values.
pub open spec fn sentences_view(r: Seq<(String, Vec<Sentence>)>) -> Seq<(Seq<char>, Seq<SentView>)> {
    r.map_values(|x: (String, Vec<Sentence>)| (x.0@, x.1@.map_values(|s: Sentence| sent_view(s))))
}


/// Candidates as values.
pub open spec fn emits_view(es: Seq<(String, Sentence)>) -> Seq<Emit> {
    es.map_values(|e: (String, Sentence)| emit_view(e))
}

fn copy_sentence(s: &Sentence) -> (r: Sentence)
    ensures
        sent_view(r) == sent_view(*s),
{
    Sentence { jp: s.jp.clone(), en: s.en.clone(), source: s.source.clone() }
}

/// The text of the first sentence in language `lang`.
fn first_text_of(sents: &Vec<(String, String)>, lang: &str) -> (r: Option<String>)
    ensures
        match r {
            Some(t) => first_text(sents@, lang@) == Some(t@),
            None => first_text(sents@, lang@) is None,
        },
{
    let mut i: usize = 0;
    assert(sents@.skip(0) =~= sents@);
    while i < sents.len()
        invariant
            i <= sents@.len(),
            first_text(sents@, lang@) == first_text(sents@.skip(i as int), lang@),
        decreases sents.len() - i,
    {
        proof {
            assert(sents@.skip(i as int).drop_first() =~= sents@.skip(i + 1));
            assert(sents@.skip(i as int)[0] == sents@[i as int]);
        }
        if str_eq(sents[i].0.as_str(), lang) {
            return Some(sents[i].1.clone());
        }
        i = i + 1;
    }
    None
}

/// The example's Japanese sentence and English translation, when it has both.
fn example_pair(ex: &Example) -> (r: Option<(String, String)>)
    ensures
        match r {
            Some(p) => ex_pair(*ex) == Some((p.0@, p.1@)),
            None => ex_pair(*ex) is None,
        },
{
    let jp = first_text_of(&ex.sentences, "jpn");
    let en = first_text_of(&ex.sentences, "eng");
    match (jp, en) {
        (Some(j), Some(e)) => Some((j, e)),
        _ => None,
    }
}

/// The wanted written forms of a word.
fn surfaces_of(kanji: &Vec<String>, wanted: &Vec<String>) -> (r: Vec<String>)
    ensures
        r@.map_values(|x: String| x@) == wanted_surfaces(kanji@, wanted@, kanji@.len() as int),
{
    let mut r: Vec<String> = Vec::new();
    let mut i: usize = 0;
    while i < kanji.len()
        invariant
            i <= kanji@.len(),
            r@.map_values(|x: String| x@) == wanted_surfaces(kanji@, wanted@, i as int),
        decreases kanji.len() - i,
    {
        let c = chars_of(kanji[i].as_str());
        if set_contains(wanted, &c) {
            let ghost old_r = r@;
            r.push(kanji[i].clone());
            proof {
                assert(r@.map_values(|x: String| x@) =~= old_r.map_values(|x: String| x@).push(kanji@[i as int]@));
            }
        }
        i = i + 1;
    }
    r
}

/// The source label of an example.
fn label_of(ex: &Example) -> (r: String)
    ensures
        r@ == source_label(*ex),
{
    let mut v = chars_of("tatoeba:");
    let src = chars_of(ex.source.as_str());
    let ghost head = v@;
    let mut i: usize = 0;
    while i < src.len()
        invariant
            i <= src@.len(),
            head == "tatoeba:"@,
            v@ == head + src@.take(i as int),
        decreases src.len() - i,
    {
        v.push(src[i]);
        proof {
            assert(v@ =~= head + src@.take(i + 1));
        }
        i = i + 1;
    }
    assert(src@.take(src@.len() as int) =~= src@);
    string_of(&v)
}

/// Append the candidates of one example.
fn push_example_emits(es: &mut Vec<(String, Sentence)>, ss: &Vec<String>, ex: &Example)
    ensures
        emits_view(final(es)@) == emits_view(old(es)@) + example_emits(ss@.map_values(|x: String| x@), *ex, ss@.len() as int),
{
    let ghost ssv = ss@.map_values(|x: String| x@);
    let ghost base = emits_view(es@);
    let pair = example_pair(ex);
    let (jp, en) = match pair {
        Some(p) => p,
        None => {
            proof {
                assert forall|k: int| 0 <= k <= ssv.len() implies example_emits(ssv, *ex, k) == Seq::<Emit>::empty() by {
                    lemma_no_pair_emits(ssv, *ex, k);
                }
                assert(emits_view(es@) =~= base + example_emits(ssv, *ex, ssv.len() as int));
            }
            return;
        },
    };
    let jc = chars_of(jp.as_str());
    let band = MIN_LEN <= jc.len() && jc.len() <= MAX_LEN;
    let label = label_of(ex);
    let mut k: usize = 0;
    assert(emits_view(es@) =~= base + example_emits(ssv, *ex, 0));
    while k < ss.len()
        invariant
            k <= ss@.len() == ssv.len(),
            ssv == ss@.map_values(|x: String| x@),
            ex_pair(*ex) == Some((jp@, en@)),
            jc@ == jp@,
            band == in_band(jp@),
            label@ == source_label(*ex),
            emits_view(es@) == base + example_emits(ssv, *ex, k as int),
        decreases ss.len() - k,
    {
        let sc = chars_of(ss[k].as_str());
        if band && seq_contains(&jc, &sc) {
            let ghost old_es = es@;
            es.push((ss[k].clone(), Sentence { jp: jp.clone(), en: en.clone(), source: label.clone() }));
            proof {
                assert(emits_view(es@) =~= emits_view(old_es).push((ssv[k as int], (jp@, en@, label@))));
            }
        }
        k = k + 1;
    }
}

proof fn lemma_no_pair_emits(ss: Seq<Seq<char>>, ex: Example, k: int)
    requires
        ex_pair(ex) is None,
    ensures
        example_emits(ss, ex, k) == Seq::<Emit>::empty(),
    decreases k,
{
    if k > 0 {
        lemma_no_pair_emits(ss, ex, k - 1);
    }
}

/// All candidates, in word, example, and surface order.
fn collect_emits(words: &Vec<ExampleWord>, wanted: &Vec<String>) -> (es: Vec<(String, Sentence)>)
    ensures
        emits_view(es@) == all_emits(words@, wanted@, words@.len() as int),
{
    let mut es: Vec<(String, Sentence)> = Vec::new();
    let mut i: usize = 0;
    while i < words.len()
        invariant
            i <= words@.len(),
            emits_view(es@) == all_emits(words@, wanted@, i as int),
        decreases words.len() - i,
    {
        let w = &words[i];
        let ss = surfaces_of(&w.kanji, wanted);
        let ghost base = emits_view(es@);
        let mut j: usize = 0;
        assert(emits_view(es@) =~= base + word_emits(*w, wanted@, 0));
        while j < w.examples.len()
            invariant
                j <= w.examples@.len(),
                ss@.map_values(|x: String| x@) == wanted_surfaces(w.kanji@, wanted@, w.kanji@.len() as int),
                emits_view(es@) == base + word_emits(*w, wanted@, j as int),
            decreases w.examples.len() - j,
        {
            push_example_emits(&mut es, &ss, &w.examples[j]);
            proof {
                let ssv = wanted_surfaces(w.kanji@, wanted@, w.kanji@.len() as int);
                assert(ss@.len() == ssv.len());
                assert(base + word_emits(*w, wanted@, j + 1) =~= base + word_emits(*w, wanted@, j as int)
                    + example_emits(ssv, w.examples@[j as int], ssv.len() as int));
            }
            j = j + 1;
        }
        proof {
            assert(all_emits(words@, wanted@, i + 1) =~= base + word_emits(*w, wanted@, w.examples@.len() as int));
        }
        i = i + 1;
    }
    es
}

/// The key of a candidate as characters.
fn key_of(e: &(String, Sentence)) -> (r: Vec<char>)
    ensures
        r@ == emit_key(emit_view(*e)),
{
    let mut r = chars_of(e.0.as_str());
    let jp = chars_of(e.1.jp.as_str());
    r.push('\u{1}');
    let ghost head = r@;
    let mut i: usize = 0;
    while i < jp.len()
        invariant
            i <= jp@.len(),
            head == e.0@ + seq!['\u{1}'],
            r@ == head + jp@.take(i as int),
        decreases jp.len() - i,
    {
        r.push(jp[i]);
        proof {
            assert(r@ =~= head + jp@.take(i + 1));
        }
        i = i + 1;
    }
    assert(jp@.take(jp@.len() as int) =~= jp@);
    r
}

/// The candidates without repeats (see `kept_upto`).
fn dedup_emits(es: &Vec<(String, Sentence)>) -> (kept: Vec<(String, Sentence)>)
    ensures
        emits_view(kept@) == kept_upto(emits_view(es@), es@.len() as int),
{
    let ghost ev = emits_view(es@);
    let mut kept: Vec<(String, Sentence)> = Vec::new();
    let mut keys: Vec<Vec<char>> = Vec::new();
    let mut i: usize = 0;
    while i < es.len()
        invariant
            i <= es@.len() == ev.len(),
            ev == emits_view(es@),
            emits_view(kept@) == kept_upto(ev, i as int),
            keys@.len() == kept@.len(),
            forall|j: int| 0 <= j < keys@.len() ==> (#[trigger] keys@[j])@ == emit_key(emits_view(kept@)[j]),
        decreases es.len() - i,
    {
        let key = key_of(&es[i]);
        let ghost prev = kept_upto(ev, i as int);
        let mut dup = false;
        let mut j: usize = 0;
        while j < keys.len() && !dup
            invariant
                j <= keys@.len() == prev.len(),
                prev == emits_view(kept@),
                forall|q: int| 0 <= q < keys@.len() ==> (#[trigger] keys@[q])@ == emit_key(prev[q]),
                dup ==> exists|q: int| 0 <= q < prev.len() && emit_key(#[trigger] prev[q]) == key@,
                !dup ==> forall|q: int| 0 <= q < j ==> emit_key(#[trigger] prev[q]) != key@,
            decreases keys.len() - j,
        {
            if crate::text::chars_eq(&keys[j], &key) {
                dup = true;
            }
            j = j + 1;
        }
        assert(key@ == emit_key(ev[i as int]));
        if !dup {
            let ghost old_kept = kept@;
            kept.push((es[i].0.clone(), copy_sentence(&es[i].1)));
            keys.push(key);
            proof {
                assert(emits_view(kept@) =~= emits_view(old_kept).push(ev[i as int]));
            }
        }
        i = i + 1;
    }
    kept
}


/// Positions of the kept candidates for surface `s`.
fn group_of(kept: &Vec<(String, Sentence)>, s: &Vec<char>) -> (g: Vec<usize>)
    ensures
        g@ == group(emits_view(kept@), s@, kept@.len() as int),
        forall|k: int| 0 <= k < g@.len() ==> (#[trigger] g@[k]) < kept@.len(),
{
    let ghost kv = emits_view(kept@);
    let mut g: Vec<usize> = Vec::new();
    let mut k: usize = 0;
    while k < kept.len()
        invariant
            k <= kept@.len() == kv.len(),
            kv == emits_view(kept@),
            g@ == group(kv, s@, k as int),
            forall|j: int| 0 <= j < g@.len() ==> (#[trigger] g@[j]) < k,
        decreases kept.len() - k,
    {
        let c = chars_of(kept[k].0.as_str());
        if crate::text::chars_eq(&c, s) {
            g.push(k);
        }
        k = k + 1;
    }
    g
}

/// For each wanted surface, up to `MAX_SENTENCES_PER_WORD` short translated example sentences
/// containing it (see `spec_sentences`): the candidates are every example sentence, in word,
/// example, and surface order, that contains a wanted surface of its word, has an English
/// translation, and is `MIN_LEN` to `MAX_LEN` characters long; a repeat of a (surface, sentence)
/// pair is dropped; each surface keeps its shortest ones, ties in candidate order.
pub fn build(words: &Vec<ExampleWord>, wanted: &Vec<String>) -> (r: Vec<(String, Vec<Sentence>)>)
    ensures
        sentences_view(r@) == spec_sentences(words@, wanted@),
{
    let es = collect_emits(words, wanted);
    let kept = dedup_emits(&es);
    let ghost kv = emits_view(kept@);
    let n = kept.len();
    // Sort keys, and the surfaces in order of first appearance.
    let mut keys: Vec<(i128, u64)> = Vec::new();
    let mut surfs: Vec<Vec<char>> = Vec::new();
    let mut si: Vec<usize> = Vec::new();
    let mut i: usize = 0;
    while i < n
        invariant
            i <= n == kept@.len() == kv.len(),
            kv == emits_view(kept@),
            keys@ == len_keys(kv).take(i as int),
            surfs@.len() == si@.len() == surfaces_upto(kv, i as int).len(),
            forall|k: int| 0 <= k < surfs@.len() ==> (#[trigger] surfs@[k])@ == surfaces_upto(kv, i as int)[k],
            forall|k: int| 0 <= k < si@.len() ==> (#[trigger] si@[k]) < n && kv[si@[k] as int].0 == surfs@[k]@,
        decreases n - i,
    {
        let jl = chars_of(kept[i].1.jp.as_str()).len();
        keys.push((jl as i128, 0u64));
        proof {
            assert(keys@ =~= len_keys(kv).take(i + 1));
        }
        let c = chars_of(kept[i].0.as_str());
        let ghost prev = surfaces_upto(kv, i as int);
        let mut found = false;
        let mut k: usize = 0;
        while k < surfs.len() && !found
            invariant
                k <= surfs@.len() == prev.len(),
                forall|j: int| 0 <= j < surfs@.len() ==> (#[trigger] surfs@[j])@ == prev[j],
                found ==> prev.contains(c@),
                !found ==> forall|j: int| 0 <= j < k ==> prev[j] != c@,
            decreases surfs.len() - k,
        {
            if crate::text::chars_eq(&surfs[k], &c) {
                found = true;
                assert(prev[k as int] == c@);
            }
            k = k + 1;
        }
        assert(kv[i as int].0 == c@);
        if !found {
            surfs.push(c);
            si.push(i);
        }
        i = i + 1;
    }
    assert(keys@ =~= len_keys(kv));
    let ghost ss = surfaces_upto(kv, n as int);
    let mut out: Vec<(String, Vec<Sentence>)> = Vec::new();
    let mut t: usize = 0;
    while t < surfs.len()
        invariant
            t <= surfs@.len() == si@.len() == ss.len(),
            n == kept@.len() == kv.len(),
            kv == emits_view(kept@),
            keys@ == len_keys(kv),
            ss == surfaces_upto(kv, n as int),
            forall|k: int| 0 <= k < surfs@.len() ==> (#[trigger] surfs@[k])@ == ss[k],
            forall|k: int| 0 <= k < si@.len() ==> (#[trigger] si@[k]) < n && kv[si@[k] as int].0 == surfs@[k]@,
            spec_sentences(words@, wanted@) == ss.map_values(|s: Seq<char>| (s, chosen(kv, s).map_values(|k: usize| kv[k as int].1))),
            sentences_view(out@) == spec_sentences(words@, wanted@).take(t as int),
        decreases surfs.len() - t,
    {
        let grp = group_of(&kept, &surfs[t]);
        let sorted = stable_sort_indices(&grp, &keys);
        let ghost ch = chosen(kv, ss[t as int]);
        proof {
            lemma_sorted_elems(grp@, keys@);
            assert forall|k: int| 0 <= k < sorted@.len() implies (#[trigger] sorted@[k]) < n by {
                lemma_sorted_contains(grp@, keys@, k);
                let w = choose|w: int| 0 <= w < grp@.len() && grp@[w] == sorted@[k];
            }
        }
        let lim = if sorted.len() <= MAX_SENTENCES_PER_WORD { sorted.len() } else { MAX_SENTENCES_PER_WORD };
        let mut v: Vec<Sentence> = Vec::new();
        let mut q: usize = 0;
        while q < lim
            invariant
                q <= lim <= sorted@.len(),
                lim == ch.len(),
                forall|k: int| 0 <= k < lim ==> #[trigger] ch[k] == sorted@[k],
                forall|k: int| 0 <= k < sorted@.len() ==> (#[trigger] sorted@[k]) < n,
                n == kept@.len() == kv.len(),
                kv == emits_view(kept@),
                v@.map_values(|s: Sentence| sent_view(s)) == ch.map_values(|k: usize| kv[k as int].1).take(q as int),
            decreases lim - q,
        {
            let ghost old_v = v@;
            v.push(copy_sentence(&kept[sorted[q]].1));
            proof {
                assert(v@.map_values(|s: Sentence| sent_view(s)) =~= old_v.map_values(|s: Sentence| sent_view(s)).push(
                    kv[sorted@[q as int] as int].1));
                assert(ch.map_values(|k: usize| kv[k as int].1).take(q + 1) =~= ch.map_values(|k: usize| kv[k as int].1).take(
                    q as int).push(kv[ch[q as int] as int].1));
            }
            q = q + 1;
        }
        let ghost old_out = out@;
        let name = kept[si[t]].0.clone();
        out.push((name, v));
        proof {
            assert(v@.map_values(|s: Sentence| sent_view(s)) =~= ch.map_values(|k: usize| kv[k as int].1));
            assert(sentences_view(out@) =~= sentences_view(old_out).push((ss[t as int], ch.map_values(|k: usize| kv[k as int].1))));
            assert(spec_sentences(words@, wanted@).take(t + 1) =~= spec_sentences(words@, wanted@).take(t as int).push(
                spec_sentences(words@, wanted@)[t as int]));
        }
        t = t + 1;
    }
    assert(spec_sentences(words@, wanted@).take(ss.len() as int) =~= spec_sentences(words@, wanted@));
    out
}


// ---------------------------------------------------------------------------------------------
// Laws of the sentence selection.
// ---------------------------------------------------------------------------------------------

/// A candidate's sentence contains its surface and falls within the length band.
pub open spec fn fits(e: Emit) -> bool {
    contains_seq(e.1.0, e.0) && in_band(e.1.0)
}

proof fn lemma_example_emits_fit(ss: Seq<Seq<char>>, ex: Example, k: int)
    ensures
        forall|j: int| 0 <= j < example_emits(ss, ex, k).len() ==> fits(#[trigger] example_emits(ss, ex, k)[j]),
    decreases k,
{
    if k > 0 {
        lemma_example_emits_fit(ss, ex, k - 1);
        let prev = example_emits(ss, ex, k - 1);
        let cur = example_emits(ss, ex, k);
        assert forall|j: int| 0 <= j < cur.len() implies fits(#[trigger] cur[j]) by {
            if j < prev.len() {
                assert(cur[j] == prev[j]);
            }
        }
    }
}

proof fn lemma_word_emits_fit(w: ExampleWord, wanted: Seq<String>, m: int)
    ensures
        forall|j: int| 0 <= j < word_emits(w, wanted, m).len() ==> fits(#[trigger] word_emits(w, wanted, m)[j]),
    decreases m,
{
    if m > 0 {
        lemma_word_emits_fit(w, wanted, m - 1);
        let ss = wanted_surfaces(w.kanji@, wanted, w.kanji@.len() as int);
        let a = word_emits(w, wanted, m - 1);
        let b = example_emits(ss, w.examples@[m - 1], ss.len() as int);
        lemma_example_emits_fit(ss, w.examples@[m - 1], ss.len() as int);
        assert forall|j: int| 0 <= j < (a + b).len() implies fits(#[trigger] (a + b)[j]) by {
            if j < a.len() {
                assert((a + b)[j] == a[j]);
            } else {
                assert((a + b)[j] == b[j - a.len()]);
            }
        }
    }
}

proof fn lemma_all_emits_fit(words: Seq<ExampleWord>, wanted: Seq<String>, n: int)
    ensures
        forall|j: int| 0 <= j < all_emits(words, wanted, n).len() ==> fits(#[trigger] all_emits(words, wanted, n)[j]),
    decreases n,
{
    if n > 0 {
        lemma_all_emits_fit(words, wanted, n - 1);
        let a = all_emits(words, wanted, n - 1);
        let b = word_emits(words[n - 1], wanted, words[n - 1].examples@.len() as int);
        lemma_word_emits_fit(words[n - 1], wanted, words[n - 1].examples@.len() as int);
        assert forall|j: int| 0 <= j < (a + b).len() implies fits(#[trigger] (a + b)[j]) by {
            if j < a.len() {
                assert((a + b)[j] == a[j]);
            } else {
                assert((a + b)[j] == b[j - a.len()]);
            }
        }
    }
}

proof fn lemma_kept_fit(es: Seq<Emit>, n: int)
    requires
        0 <= n <= es.len(),
        forall|j: int| 0 <= j < es.len() ==> fits(#[trigger] es[j]),
    ensures
        forall|j: int| 0 <= j < kept_upto(es, n).len() ==> fits(#[trigger] kept_upto(es, n)[j]),
    decreases n,
{
    if n > 0 {
        lemma_kept_fit(es, n - 1);
        let prev = kept_upto(es, n - 1);
        let cur = kept_upto(es, n);
        assert forall|j: int| 0 <= j < cur.len() implies fits(#[trigger] cur[j]) by {
            if j < prev.len() {
                assert(cur[j] == prev[j]);
            } else {
                assert(cur[j] == es[n - 1]);
            }
        }
    }
}

proof fn lemma_kept_len(es: Seq<Emit>, n: int)
    requires
        0 <= n <= es.len(),
    ensures
        kept_upto(es, n).len() <= n,
    decreases n,
{
    if n > 0 {
        lemma_kept_len(es, n - 1);
    }
}

proof fn lemma_kept_distinct(es: Seq<Emit>, n: int)
    requires
        0 <= n <= es.len(),
    ensures
        forall|a: int, b: int| 0 <= a < b < kept_upto(es, n).len() ==> emit_key(#[trigger] kept_upto(es, n)[a])
            != emit_key(#[trigger] kept_upto(es, n)[b]),
    decreases n,
{
    if n > 0 {
        lemma_kept_distinct(es, n - 1);
        let prev = kept_upto(es, n - 1);
        let cur = kept_upto(es, n);
        assert forall|a: int, b: int| 0 <= a < b < cur.len() implies emit_key(#[trigger] cur[a]) != emit_key(#[trigger] cur[b]) by {
            if b < prev.len() {
                assert(cur[a] == prev[a] && cur[b] == prev[b]);
            } else {
                assert(cur[a] == prev[a]);
            }
        }
    }
}

proof fn lemma_group(kept: Seq<Emit>, s: Seq<char>, n: int)
    requires
        0 <= n <= kept.len(),
        n <= usize::MAX,
    ensures
        forall|k: int| 0 <= k < group(kept, s, n).len() ==> {
            &&& (#[trigger] group(kept, s, n)[k]) < n
            &&& kept[group(kept, s, n)[k] as int].0 == s
        },
        forall|a: int, b: int| 0 <= a < b < group(kept, s, n).len() ==> #[trigger] group(kept, s, n)[a]
            < #[trigger] group(kept, s, n)[b],
    decreases n,
{
    if n > 0 {
        lemma_group(kept, s, n - 1);
        let prev = group(kept, s, n - 1);
        let cur = group(kept, s, n);
        assert forall|k: int| 0 <= k < cur.len() implies {
            &&& (#[trigger] cur[k]) < n
            &&& kept[cur[k] as int].0 == s
        } by {
            if k < prev.len() {
                assert(cur[k] == prev[k]);
            }
        }
        assert forall|a: int, b: int| 0 <= a < b < cur.len() implies #[trigger] cur[a] < #[trigger] cur[b] by {
            assert(cur[a] == prev[a]);
            if b < prev.len() {
                assert(cur[b] == prev[b]);
            }
        }
    }
}

proof fn lemma_chosen(kept: Seq<Emit>, s: Seq<char>, k: int)
    requires
        0 <= k < chosen(kept, s).len(),
        kept.len() <= usize::MAX,
    ensures
        chosen(kept, s)[k] < kept.len(),
        kept[chosen(kept, s)[k] as int].0 == s,
{
    let g = group(kept, s, kept.len() as int);
    lemma_group(kept, s, kept.len() as int);
    lemma_sorted_elems(g, len_keys(kept));
    lemma_sorted_contains(g, len_keys(kept), k);
    let w = choose|w: int| 0 <= w < g.len() && g[w] == chosen(kept, s)[k];
}

/// Every kept sentence contains the word it was kept for and is `MIN_LEN` to `MAX_LEN`
/// characters long, and no word gets more than `MAX_SENTENCES_PER_WORD` sentences.
pub proof fn law_sentences_fit_their_word(words: Seq<ExampleWord>, wanted: Seq<String>, t: int, k: int)
    requires
        0 <= t < spec_sentences(words, wanted).len(),
        all_emits(words, wanted, words.len() as int).len() <= usize::MAX,
    ensures
        spec_sentences(words, wanted)[t].1.len() <= MAX_SENTENCES_PER_WORD,
        0 <= k < spec_sentences(words, wanted)[t].1.len() ==> {
            let jp = spec_sentences(words, wanted)[t].1[k].0;
            &&& contains_seq(jp, spec_sentences(words, wanted)[t].0)
            &&& in_band(jp)
        },
{
    let es = all_emits(words, wanted, words.len() as int);
    let kept = kept_upto(es, es.len() as int);
    let s = surfaces_upto(kept, kept.len() as int)[t];
    lemma_sorted_elems(group(kept, s, kept.len() as int), len_keys(kept));
    lemma_kept_len(es, es.len() as int);
    if 0 <= k < spec_sentences(words, wanted)[t].1.len() {
        lemma_all_emits_fit(words, wanted, words.len() as int);
        lemma_kept_fit(es, es.len() as int);
        lemma_chosen(kept, s, k);
        let x = chosen(kept, s)[k] as int;
        assert(fits(kept[x]));
    }
}

/// The sentences of a word come shortest first, and no sentence is kept twice for a word.
pub proof fn law_sentences_shortest_first(words: Seq<ExampleWord>, wanted: Seq<String>, t: int, a: int, b: int)
    requires
        0 <= t < spec_sentences(words, wanted).len(),
        all_emits(words, wanted, words.len() as int).len() <= usize::MAX,
        0 <= a < b < spec_sentences(words, wanted)[t].1.len(),
    ensures
        spec_sentences(words, wanted)[t].1[a].0.len() <= spec_sentences(words, wanted)[t].1[b].0.len(),
        spec_sentences(words, wanted)[t].1[a].0 != spec_sentences(words, wanted)[t].1[b].0,
{
    let es = all_emits(words, wanted, words.len() as int);
    let kept = kept_upto(es, es.len() as int);
    let s = surfaces_upto(kept, kept.len() as int)[t];
    let g = group(kept, s, kept.len() as int);
    let keys = len_keys(kept);
    let sorted = sorted_stable(g, keys);
    lemma_kept_len(es, es.len() as int);
    lemma_sorted_elems(g, keys);
    lemma_sorted_stable_sorted(g, keys);
    lemma_all_emits_fit(words, wanted, words.len() as int);
    lemma_kept_fit(es, es.len() as int);
    lemma_kept_distinct(es, es.len() as int);
    lemma_chosen(kept, s, a);
    lemma_chosen(kept, s, b);
    let x = chosen(kept, s)[a];
    let y = chosen(kept, s)[b];
    assert(x == sorted[a] && y == sorted[b]);
    assert(idx_le(keys, sorted[a], sorted[b]));
    assert(fits(kept[x as int]) && fits(kept[y as int]));
    // Two positions of one sorted list are different positions of the kept list.
    lemma_group(kept, s, kept.len() as int);
    lemma_sorted_distinct(g, keys, a, b);
    if x < y {
        assert(emit_key(kept[x as int]) != emit_key(kept[y as int]));
    } else {
        assert(emit_key(kept[y as int]) != emit_key(kept[x as int]));
    }
    if kept[x as int].1.0 == kept[y as int].1.0 {
        assert(emit_key(kept[x as int]) == emit_key(kept[y as int]));
    }
}

/// Sorting a list without repeats gives a list without repeats.
proof fn lemma_sorted_distinct(g: Seq<usize>, keys: Seq<(i128, u64)>, a: int, b: int)
    requires
        forall|i: int, j: int| 0 <= i < j < g.len() ==> #[trigger] g[i] != #[trigger] g[j],
        0 <= a < b < sorted_stable(g, keys).len(),
    ensures
        sorted_stable(g, keys)[a] != sorted_stable(g, keys)[b],
{
    broadcast use vstd::seq_lib::group_to_multiset_ensures;

    lemma_sorted_elems(g, keys);
    let s = sorted_stable(g, keys);
    if s[a] == s[b] {
        let v = s[a];
        lemma_count_ge_two(s, v, a, b);
        lemma_count_le_one(g, v);
    }
}

proof fn lemma_count_ge_two(s: Seq<usize>, v: usize, a: int, b: int)
    requires
        0 <= a < b < s.len(),
        s[a] == v,
        s[b] == v,
    ensures
        s.to_multiset().count(v) >= 2,
    decreases s.len(),
{
    broadcast use vstd::seq_lib::group_to_multiset_ensures;

    let t = s.drop_last();
    assert(s == t.push(s.last()));
    if b < s.len() - 1 {
        lemma_count_ge_two(t, v, a, b);
    } else {
        assert(t[a] == v);
        assert(t.contains(v));
    }
}

proof fn lemma_count_le_one(g: Seq<usize>, v: usize)
    requires
        forall|i: int, j: int| 0 <= i < j < g.len() ==> #[trigger] g[i] != #[trigger] g[j],
    ensures
        g.to_multiset().count(v) <= 1,
    decreases g.len(),
{
    broadcast use vstd::seq_lib::group_to_multiset_ensures;

    if g.len() > 0 {
        let t = g.drop_last();
        assert(g == t.push(g.last()));
        assert forall|i: int, j: int| 0 <= i < j < t.len() implies #[trigger] t[i] != #[trigger] t[j] by {
            assert(t[i] == g[i] && t[j] == g[j]);
        }
        lemma_count_le_one(t, v);
        if g.last() == v {
            if t.contains(v) {
                let i = choose|i: int| 0 <= i < t.len() && t[i] == v;
                assert(g[i] == g[g.len() - 1]);
            }
        }
    }
}


proof fn lemma_kept_covers(es: Seq<Emit>, n: int, j: int)
    requires
        0 <= j < n <= es.len(),
    ensures
        exists|k: int| 0 <= k < kept_upto(es, n).len() && emit_key(#[trigger] kept_upto(es, n)[k]) == emit_key(es[j]),
    decreases n,
{
    let prev = kept_upto(es, n - 1);
    let cur = kept_upto(es, n);
    if j < n - 1 {
        lemma_kept_covers(es, n - 1, j);
        let k = choose|k: int| 0 <= k < prev.len() && emit_key(#[trigger] prev[k]) == emit_key(es[j]);
        assert(cur[k] == prev[k]);
    } else if exists|q: int| 0 <= q < prev.len() && emit_key(#[trigger] prev[q]) == emit_key(es[n - 1]) {
        let k = choose|q: int| 0 <= q < prev.len() && emit_key(#[trigger] prev[q]) == emit_key(es[n - 1]);
        assert(cur[k] == prev[k]);
    } else {
        assert(cur[prev.len() as int] == es[n - 1]);
    }
}

/// Keys of surfaces without the separator tell the surfaces apart.
proof fn lemma_key_surface(a: Emit, b: Emit)
    requires
        emit_key(a) == emit_key(b),
        !a.0.contains('\u{1}'),
        !b.0.contains('\u{1}'),
    ensures
        a.0 == b.0,
{
    let ka = emit_key(a);
    if a.0.len() < b.0.len() {
        assert(ka[a.0.len() as int] == '\u{1}');
        assert(emit_key(b)[a.0.len() as int] == b.0[a.0.len() as int]);
        assert(b.0.contains('\u{1}'));
    } else if b.0.len() < a.0.len() {
        assert(emit_key(b)[b.0.len() as int] == '\u{1}');
        assert(ka[b.0.len() as int] == a.0[b.0.len() as int]);
        assert(a.0.contains('\u{1}'));
    } else {
        assert forall|i: int| 0 <= i < a.0.len() implies a.0[i] == b.0[i] by {
            assert(ka[i] == a.0[i]);
            assert(emit_key(b)[i] == b.0[i]);
        }
        assert(a.0 =~= b.0);
    }
}

proof fn lemma_surfaces_upto(kept: Seq<Emit>, n: int, j: int)
    requires
        0 <= j < n <= kept.len(),
    ensures
        surfaces_upto(kept, n).contains(kept[j].0),
    decreases n,
{
    let prev = surfaces_upto(kept, n - 1);
    if j < n - 1 {
        lemma_surfaces_upto(kept, n - 1, j);
        let k = choose|k: int| 0 <= k < prev.len() && prev[k] == kept[j].0;
        if !prev.contains(kept[n - 1].0) {
            assert(surfaces_upto(kept, n)[k] == prev[k]);
        }
    } else if !prev.contains(kept[n - 1].0) {
        assert(surfaces_upto(kept, n)[prev.len() as int] == kept[n - 1].0);
    }
}

proof fn lemma_group_has(kept: Seq<Emit>, s: Seq<char>, n: int, j: int)
    requires
        0 <= j < n <= kept.len(),
        kept[j].0 == s,
    ensures
        group(kept, s, n).len() >= 1,
    decreases n,
{
    if j < n - 1 {
        lemma_group_has(kept, s, n - 1, j);
    }
}

/// Every wanted word that some fitting example contains keeps at least one sentence (for
/// surfaces without the U+0001 separator, which could otherwise make two different
/// (surface, sentence) pairs look alike).
pub proof fn law_every_matched_word_gets_a_sentence(words: Seq<ExampleWord>, wanted: Seq<String>, j: int)
    requires
        0 <= j < all_emits(words, wanted, words.len() as int).len(),
        all_emits(words, wanted, words.len() as int).len() <= usize::MAX,
        forall|i: int| 0 <= i < all_emits(words, wanted, words.len() as int).len()
            ==> !(#[trigger] all_emits(words, wanted, words.len() as int)[i]).0.contains('\u{1}'),
    ensures
        exists|t: int| 0 <= t < spec_sentences(words, wanted).len()
            && (#[trigger] spec_sentences(words, wanted)[t]).0 == all_emits(words, wanted, words.len() as int)[j].0
            && spec_sentences(words, wanted)[t].1.len() >= 1,
{
    let es = all_emits(words, wanted, words.len() as int);
    let kept = kept_upto(es, es.len() as int);
    lemma_kept_len(es, es.len() as int);
    lemma_kept_covers(es, es.len() as int, j);
    let k = choose|k: int| 0 <= k < kept.len() && emit_key(#[trigger] kept[k]) == emit_key(es[j]);
    lemma_kept_from(es, es.len() as int, k);
    let w = choose|w: int| 0 <= w < es.len() && es[w] == kept[k];
    lemma_key_surface(kept[k], es[j]);
    let s = es[j].0;
    lemma_surfaces_upto(kept, kept.len() as int, k);
    let ss = surfaces_upto(kept, kept.len() as int);
    let t = choose|t: int| 0 <= t < ss.len() && ss[t] == s;
    lemma_group_has(kept, s, kept.len() as int, k);
    lemma_sorted_elems(group(kept, s, kept.len() as int), len_keys(kept));
    assert(spec_sentences(words, wanted)[t].0 == s);
}

proof fn lemma_kept_from(es: Seq<Emit>, n: int, k: int)
    requires
        0 <= n <= es.len(),
        0 <= k < kept_upto(es, n).len(),
    ensures
        exists|w: int| 0 <= w < es.len() && es[w] == kept_upto(es, n)[k],
    decreases n,
{
    let prev = kept_upto(es, n - 1);
    if k < prev.len() {
        lemma_kept_from(es, n - 1, k);
        assert(kept_upto(es, n)[k] == prev[k]);
    } else {
        assert(kept_upto(es, n)[k] == es[n - 1]);
    }
}

} // verus!
