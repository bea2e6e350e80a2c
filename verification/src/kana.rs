//! Reading forms for matching a kanji's stored readings against its readings inside words:
//! reading stems, the context forms a reading takes in a compound (rendaku voicing and
//! gemination), katakana-to-hiragana folding, and JLPT level labels.

use vstd::prelude::*;
use crate::text::{chars_of, string_of, str_eq, char_from_u32, trim_chars, spec_trim};

verus! {

/// The JLPT level number of a label: `"N5"` is 5 down to `"N1"` is 1.
pub open spec fn spec_level_num(s: Seq<char>) -> Option<u8> {
    if s == "N5"@ {
        Some(5u8)
    } else if s == "N4"@ {
        Some(4u8)
    } else if s == "N3"@ {
        Some(3u8)
    } else if s == "N2"@ {
        Some(2u8)
    } else if s == "N1"@ {
        Some(1u8)
    } else {
        None
    }
}

/// The JLPT level number of a label (`"N5"` to `"N1"`), or `None` for any other text.
pub fn level_num(s: &str) -> (r: Option<u8>)
    ensures
        r == spec_level_num(s@),
{
    if str_eq(s, "N5") {
        Some(5)
    } else if str_eq(s, "N4") {
        Some(4)
    } else if str_eq(s, "N3") {
        Some(3)
    } else if str_eq(s, "N2") {
        Some(2)
    } else if str_eq(s, "N1") {
        Some(1)
    } else {
        None
    }
}

/// A CJK ideograph (the unified ideographs and extension A block range, U+3400 to U+9FFF).
pub open spec fn spec_is_kanji(c: char) -> bool {
    0x3400 <= (c as u32) <= 0x9FFF
}

/// Whether `c` is a kanji.
pub fn is_kanji(c: char) -> (b: bool)
    ensures
        b == spec_is_kanji(c),
{
    let u = c as u32;
    0x3400 <= u && u <= 0x9FFF
}

/// Everything before the first `.` (the okurigana separator).
pub open spec fn before_dot(s: Seq<char>) -> Seq<char>
    decreases s.len(),
{
    if s.len() == 0 {
        s
    } else if s[0] == '.' {
        Seq::empty()
    } else {
        seq![s[0]] + before_dot(s.drop_first())
    }
}

/// `s` with every `-` removed.
pub open spec fn without_dashes(s: Seq<char>) -> Seq<char>
    decreases s.len(),
{
    if s.len() == 0 {
        s
    } else if s.last() == '-' {
        without_dashes(s.drop_last())
    } else {
        without_dashes(s.drop_last()).push(s.last())
    }
}

/// The stem of a stored reading: okurigana after `.` dropped, `-` markers removed, trimmed
/// (`い.きる` gives `い`, `おお-` gives `おお`, `-り` gives `り`).
pub open spec fn spec_reading_stem(rd: Seq<char>) -> Seq<char> {
    spec_trim(without_dashes(before_dot(rd)))
}

proof fn lemma_before_dot_prefix(s: Seq<char>, i: int)
    requires
        0 <= i <= s.len(),
        forall|k: int| 0 <= k < i ==> s[k] != '.',
    ensures
        i == s.len() ==> before_dot(s) == s,
        i < s.len() && s[i] == '.' ==> before_dot(s) == s.take(i),
    decreases s.len(),
{
    if s.len() > 0 && i > 0 {
        assert forall|k: int| 0 <= k < i - 1 implies s.drop_first()[k] != '.' by {
            assert(s.drop_first()[k] == s[k + 1]);
        }
        if i < s.len() {
            assert(s.drop_first()[i - 1] == s[i]);
        }
        lemma_before_dot_prefix(s.drop_first(), i - 1);
        if i == s.len() {
            assert(seq![s[0]] + s.drop_first() =~= s);
        } else if s[i] == '.' {
            assert(seq![s[0]] + s.drop_first().take(i - 1) =~= s.take(i));
        }
    } else if s.len() > 0 && i == 0 {
        if s[0] == '.' {
            assert(s.take(0) =~= Seq::<char>::empty());
        }
    } else {
        assert(s.take(0) =~= s);
    }
}

/// The stem of a stored reading.
pub fn reading_stem(rd: &str) -> (r: String)
    ensures
        r@ == spec_reading_stem(rd@),
{
    let v = chars_of(rd);
    let mut i: usize = 0;
    while i < v.len() && v[i] != '.'
        invariant
            i <= v@.len(),
            forall|k: int| 0 <= k < i ==> v@[k] != '.',
        decreases v.len() - i,
    {
        i = i + 1;
    }
    let ghost head = v@.subrange(0, i as int);
    proof {
        lemma_before_dot_prefix(v@, i as int);
        assert(v@.take(i as int) =~= head);
        if i == v@.len() {
            assert(head =~= v@);
        }
        assert(before_dot(v@) == head);
    }
    let mut nd: Vec<char> = Vec::new();
    let mut j: usize = 0;
    while j < i
        invariant
            j <= i <= v@.len(),
            head == v@.subrange(0, i as int),
            nd@ == without_dashes(head.take(j as int)),
        decreases i - j,
    {
        let c = v[j];
        if c != '-' {
            nd.push(c);
        }
        proof {
            assert(head.take(j + 1).drop_last() =~= head.take(j as int));
            assert(head.take(j + 1).last() == c);
        }
        j = j + 1;
    }
    proof {
        assert(head.take(i as int) =~= head);
        assert(nd@ == without_dashes(before_dot(rd@)));
    }
    let t = trim_chars(&nd);
    string_of(&t)
}

/// The voiced (rendaku) counterpart of an unvoiced kana, if it has one.
pub open spec fn spec_voiced(c: char) -> Option<char> {
    if c == 'か' { Some('が') } else if c == 'き' { Some('ぎ') } else if c == 'く' { Some('ぐ') }
    else if c == 'け' { Some('げ') } else if c == 'こ' { Some('ご') } else if c == 'さ' { Some('ざ') }
    else if c == 'し' { Some('じ') } else if c == 'す' { Some('ず') } else if c == 'せ' { Some('ぜ') }
    else if c == 'そ' { Some('ぞ') } else if c == 'た' { Some('だ') } else if c == 'ち' { Some('ぢ') }
    else if c == 'つ' { Some('づ') } else if c == 'て' { Some('で') } else if c == 'と' { Some('ど') }
    else if c == 'は' { Some('ば') } else if c == 'ひ' { Some('び') } else if c == 'ふ' { Some('ぶ') }
    else if c == 'へ' { Some('べ') } else if c == 'ほ' { Some('ぼ') } else { None }
}

/// The voiced (rendaku) counterpart of an unvoiced kana: か to が, さ to ざ, た to だ, は to ば, ...
pub fn voiced(c: char) -> (r: Option<char>)
    ensures
        r == spec_voiced(c),
{
    match c {
        'か' => Some('が'),
        'き' => Some('ぎ'),
        'く' => Some('ぐ'),
        'け' => Some('げ'),
        'こ' => Some('ご'),
        'さ' => Some('ざ'),
        'し' => Some('じ'),
        'す' => Some('ず'),
        'せ' => Some('ぜ'),
        'そ' => Some('ぞ'),
        'た' => Some('だ'),
        'ち' => Some('ぢ'),
        'つ' => Some('づ'),
        'て' => Some('で'),
        'と' => Some('ど'),
        'は' => Some('ば'),
        'ひ' => Some('び'),
        'ふ' => Some('ぶ'),
        'へ' => Some('べ'),
        'ほ' => Some('ぼ'),
        _ => None,
    }
}

/// Rendaku: the reading with its first kana voiced, if that kana has a voiced form.
pub open spec fn spec_rendaku(s: Seq<char>) -> Option<Seq<char>> {
    if s.len() == 0 {
        None
    } else {
        match spec_voiced(s[0]) {
            Some(v) => Some(s.update(0, v)),
            None => None,
        }
    }
}

/// Rendaku: voice the first mora.
pub fn rendaku(s: &Vec<char>) -> (r: Option<Vec<char>>)
    ensures
        r matches Some(t) ==> spec_rendaku(s@) == Some(t@),
        r is None ==> spec_rendaku(s@) is None,
{
    if s.len() == 0 {
        return None;
    }
    match voiced(s[0]) {
        Some(v) => {
            let mut t = s.clone();
            t.set(0, v);
            Some(t)
        },
        None => None,
    }
}

/// A final く, つ, ち or き that becomes a geminate っ before certain consonants.
pub open spec fn geminates(c: char) -> bool {
    c == 'く' || c == 'つ' || c == 'ち' || c == 'き'
}

/// Gemination: a reading of two or more kana ending in く/つ/ち/き, with that kana made っ.
pub open spec fn spec_geminate(s: Seq<char>) -> Option<Seq<char>> {
    if s.len() > 1 && geminates(s.last()) {
        Some(s.drop_last().push('っ'))
    } else {
        None
    }
}

/// Gemination of a reading's last kana.
pub fn geminate(s: &Vec<char>) -> (r: Option<Vec<char>>)
    ensures
        r matches Some(t) ==> spec_geminate(s@) == Some(t@),
        r is None ==> spec_geminate(s@) is None,
{
    let n = s.len();
    if n > 1 {
        let last = s[n - 1];
        if last == 'く' || last == 'つ' || last == 'ち' || last == 'き' {
            let mut t = s.clone();
            t.set(n - 1, 'っ');
            proof {
                assert(t@ =~= s@.drop_last().push('っ'));
            }
            return Some(t);
        }
    }
    None
}

/// The forms a reading can take inside a compound: itself, geminated, rendaku then geminated,
/// and rendaku (in that order, each only where it applies).
pub open spec fn spec_context_forms(base: Seq<char>) -> Seq<Seq<char>> {
    let with_gem = match spec_geminate(base) {
        Some(g) => seq![base, g],
        None => seq![base],
    };
    match spec_rendaku(base) {
        Some(r) => match spec_geminate(r) {
            Some(g) => with_gem.push(g).push(r),
            None => with_gem.push(r),
        },
        None => with_gem,
    }
}

/// The context forms of a reading.
pub fn context_forms(base: &Vec<char>) -> (out: Vec<Vec<char>>)
    ensures
        out@.len() == spec_context_forms(base@).len(),
        forall|i: int| 0 <= i < out@.len() ==> (#[trigger] out@[i])@ == spec_context_forms(base@)[i],
{
    let mut out: Vec<Vec<char>> = Vec::new();
    out.push(base.clone());
    match geminate(base) {
        Some(g) => out.push(g),
        None => {},
    }
    match rendaku(base) {
        Some(r) => {
            match geminate(&r) {
                Some(g) => out.push(g),
                None => {},
            }
            out.push(r);
        },
        None => {},
    }
    out
}

/// Katakana folded to hiragana (U+30A1..U+30F6 shifted down by 0x60); other characters kept.
pub open spec fn spec_hira_char(c: char) -> char {
    if 0x30A1 <= (c as u32) <= 0x30F6 {
        ((c as u32) - 0x60) as char
    } else {
        c
    }
}

/// Katakana folded to hiragana, character by character.
pub open spec fn spec_hira(s: Seq<char>) -> Seq<char> {
    s.map_values(|c: char| spec_hira_char(c))
}

/// Normalize katakana to hiragana for matching (readings are hiragana, but be defensive).
pub fn hira(s: &Vec<char>) -> (r: Vec<char>)
    ensures
        r@ == spec_hira(s@),
{
    let mut r: Vec<char> = Vec::new();
    let mut i: usize = 0;
    while i < s.len()
        invariant
            i <= s@.len(),
            r@ == s@.take(i as int).map_values(|c: char| spec_hira_char(c)),
        decreases s.len() - i,
    {
        let c = s[i];
        let u = c as u32;
        let d = if 0x30A1 <= u && u <= 0x30F6 {
            match char_from_u32(u - 0x60) {
                Some(x) => x,
                None => c,
            }
        } else {
            c
        };
        r.push(d);
        proof {
            assert(r@ =~= s@.take(i + 1).map_values(|c: char| spec_hira_char(c)));
        }
        i = i + 1;
    }
    proof {
        assert(s@.take(s@.len() as int) =~= s@);
    }
    r
}

/// Folding to hiragana twice is the same as folding once.
pub proof fn law_hira_idempotent(s: Seq<char>)
    ensures
        spec_hira(spec_hira(s)) == spec_hira(s),
{
    assert forall|i: int| 0 <= i < s.len() implies spec_hira_char(spec_hira_char(s[i])) == spec_hira_char(s[i]) by {
        let u = s[i] as u32;
        if 0x30A1 <= u <= 0x30F6 {
            assert((((u - 0x60) as char) as u32) == u - 0x60);
        }
    }
    assert(spec_hira(spec_hira(s)) =~= spec_hira(s));
}

} // verus!
