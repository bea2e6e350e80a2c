//! Stroke-order data: the ordered SVG stroke paths of a kanji drawing.

use vstd::prelude::*;
use crate::text::{chars_of, string_of, push_str};

verus! {

/// The marker that opens a stroke's path data: a leading space, `d`, `=` and a quote (the
/// leading space keeps the `id="..."` attribute, which also contains `d="`, from matching).
pub open spec fn path_marker() -> Seq<char> {
    seq![' ', 'd', '=', '"']
}

/// `pat` occurs in `s` at position `i`.
pub open spec fn occurs_at(s: Seq<char>, pat: Seq<char>, i: int) -> bool {
    0 <= i && i + pat.len() <= s.len() && s.subrange(i, i + pat.len()) == pat
}

/// `i` is the first position at which `pat` occurs in `s`.
pub open spec fn first_occurrence(s: Seq<char>, pat: Seq<char>, i: int) -> bool {
    occurs_at(s, pat, i) && forall|j: int| 0 <= j < i ==> !occurs_at(s, pat, j)
}

/// The stroke path data in `s`, in order: for each marker, the text up to the next quote
/// (a marker without a closing quote ends the list).
pub open spec fn stroke_paths(s: Seq<char>) -> Seq<Seq<char>>
    decreases s.len(),
{
    if exists|p: int| first_occurrence(s, path_marker(), p) {
        let p = choose|p: int| first_occurrence(s, path_marker(), p);
        let after = s.skip(p + 4);
        if exists|e: int| first_occurrence(after, seq!['"'], e) {
            let e = choose|e: int| first_occurrence(after, seq!['"'], e);
            seq![after.take(e)] + stroke_paths(after.skip(e + 1))
        } else {
            Seq::empty()
        }
    } else {
        Seq::empty()
    }
}

proof fn lemma_first_unique(s: Seq<char>, pat: Seq<char>, i: int, j: int)
    requires
        first_occurrence(s, pat, i),
        first_occurrence(s, pat, j),
    ensures
        i == j,
{
}

/// The first position at or after `from` where `pat` occurs in `v`, if any.
pub(crate) fn find_from(v: &Vec<char>, pat: &Vec<char>, from: usize) -> (r: Option<usize>)
    requires
        from <= v@.len(),
        pat@.len() > 0,
    ensures
        r matches Some(i) ==> from <= i && first_occurrence(v@.skip(from as int), pat@, i - from),
        r is None ==> !exists|p: int| occurs_at(v@.skip(from as int), pat@, p),
{
    let ghost s = v@.skip(from as int);
    let m = pat.len();
    let mut i: usize = from;
    while m <= v.len() && i <= v.len() - m
        invariant
            from <= i,
            from <= v@.len(),
            m == pat@.len() > 0,
            s == v@.skip(from as int),
            forall|j: int| 0 <= j < i - from ==> !occurs_at(s, pat@, j),
        decreases v.len() - i,
    {
        let mut t: usize = 0;
        let mut same = true;
        while same && t < m
            invariant
                t <= m,
                m == pat@.len(),
                i + m <= v.len(),
                forall|w: int| 0 <= w < t ==> v@[i + w] == pat@[w],
                !same ==> t < m && v@[i + t] != pat@[t as int],
            decreases m - t + (if same { 1int } else { 0int }),
        {
            if v[i + t] == pat[t] {
                t = t + 1;
            } else {
                same = false;
            }
        }
        if t == m {
            proof {
                assert(s.subrange(i - from, i - from + m) =~= pat@);
            }
            return Some(i);
        }
        proof {
            assert(s.subrange(i - from, i - from + m)[t as int] != pat@[t as int]);
        }
        i = i + 1;
    }
    proof {
        assert forall|p: int| !occurs_at(s, pat@, p) by {
            if 0 <= p && p < i - from {
            }
        }
    }
    None
}

/// Extract the ordered stroke `d` attributes of a KanjiVG drawing.
pub fn extract_paths(svg: &str) -> (out: Vec<String>)
    ensures
        out@.len() == stroke_paths(svg@).len(),
        forall|i: int| 0 <= i < out@.len() ==> (#[trigger] out@[i])@ == stroke_paths(svg@)[i],
{
    let v = chars_of(svg);
    let marker: Vec<char> = vec![' ', 'd', '=', '"'];
    let quote: Vec<char> = vec!['"'];
    proof {
        assert(marker@ =~= path_marker());
    }
    let mut out: Vec<String> = Vec::new();
    let mut rest: usize = 0;
    assert(v@.skip(0) =~= v@);
    loop
        invariant
            rest <= v@.len(),
            v@ == svg@,
            marker@ == path_marker(),
            quote@ == seq!['"'],
            out@.len() + stroke_paths(v@.skip(rest as int)).len() == stroke_paths(v@).len(),
            forall|i: int| 0 <= i < out@.len() ==> (#[trigger] out@[i])@ == stroke_paths(v@)[i],
            forall|i: int|
                0 <= i < stroke_paths(v@.skip(rest as int)).len() ==> stroke_paths(v@)[out@.len() + i]
                    == #[trigger] stroke_paths(v@.skip(rest as int))[i],
        decreases v.len() - rest,
    {
        let ghost s = v@.skip(rest as int);
        match find_from(&v, &marker, rest) {
            None => {
                proof {
                    assert(!exists|p: int| first_occurrence(s, path_marker(), p));
                    assert(stroke_paths(s) =~= Seq::<Seq<char>>::empty());
                    assert(out@.len() == stroke_paths(v@).len());
                }
                return out;
            },
            Some(p) => {
                let start = p + 4;
                let ghost after = s.skip(p - rest + 4);
                proof {
                    assert(v@.skip(start as int) =~= after);
                    let pp = choose|pp: int| first_occurrence(s, path_marker(), pp);
                    lemma_first_unique(s, path_marker(), pp, p - rest);
                }
                match find_from(&v, &quote, start) {
                    None => {
                        proof {
                            assert(!exists|e: int| first_occurrence(after, seq!['"'], e));
                            assert(stroke_paths(s) =~= Seq::<Seq<char>>::empty());
                        }
                        return out;
                    },
                    Some(end) => {
                        let mut piece: Vec<char> = Vec::new();
                        let mut k: usize = start;
                        while k < end
                            invariant
                                start <= k <= end <= v@.len(),
                                piece@ == v@.subrange(start as int, k as int),
                            decreases end - k,
                        {
                            piece.push(v[k]);
                            proof {
                                assert(piece@ =~= v@.subrange(start as int, k + 1));
                            }
                            k = k + 1;
                        }
                        proof {
                            let e = end - start;
                            let ee = choose|ee: int| first_occurrence(after, seq!['"'], ee);
                            lemma_first_unique(after, seq!['"'], ee, e);
                            assert(piece@ =~= after.take(e));
                            assert(v@.skip(end + 1) =~= after.skip(e + 1));
                            assert(stroke_paths(s) == seq![after.take(e)] + stroke_paths(after.skip(e + 1)));
                        }
                        let ghost before = out@;
                        out.push(string_of(&piece));
                        proof {
                            let t = v@.skip(end + 1);
                            assert forall|i: int| 0 <= i < stroke_paths(t).len() implies stroke_paths(v@)[out@.len() + i]
                                == #[trigger] stroke_paths(t)[i] by {
                                assert(stroke_paths(s)[i + 1] == stroke_paths(t)[i]);
                            }
                            assert(out@[before.len() as int]@ == stroke_paths(s)[0]);
                        }
                        rest = end + 1;
                    },
                }
            },
        }
    }
}


/// The lowercase hexadecimal digit `d`.
pub open spec fn hex_char(d: int) -> char {
    if d < 10 {
        if d == 0 { '0' } else if d == 1 { '1' } else if d == 2 { '2' } else if d == 3 { '3' } else if d == 4 { '4' }
        else if d == 5 { '5' } else if d == 6 { '6' } else if d == 7 { '7' } else if d == 8 { '8' } else { '9' }
    } else if d == 10 { 'a' } else if d == 11 { 'b' } else if d == 12 { 'c' } else if d == 13 { 'd' } else if d == 14 { 'e' }
    else { 'f' }
}

/// The lowercase hexadecimal notation of `n`.
pub open spec fn hex(n: nat) -> Seq<char>
    decreases n,
{
    if n < 16 {
        seq![hex_char(n as int)]
    } else {
        hex(n / 16).push(hex_char((n % 16) as int))
    }
}

/// `s` padded on the left with zeros to at least `w` characters.
pub open spec fn pad_zeros(s: Seq<char>, w: nat) -> Seq<char> {
    if s.len() >= w {
        s
    } else {
        Seq::new((w - s.len()) as nat, |i: int| '0') + s
    }
}

/// The stroke-order drawing of a kanji: files are named by the glyph's scalar value in at least
/// five lowercase hexadecimal digits.
pub open spec fn spec_svg_path(g: Seq<char>) -> Option<Seq<char>> {
    if g.len() == 0 {
        None
    } else {
        Some("data/sources/kanjivg/kanji/"@ + pad_zeros(hex(g[0] as u32 as nat), 5) + ".svg"@)
    }
}

fn hex_digit(d: u32) -> (c: char)
    requires
        d < 16,
    ensures
        c == hex_char(d as int),
{
    if d < 10 {
        if d == 0 { '0' } else if d == 1 { '1' } else if d == 2 { '2' } else if d == 3 { '3' } else if d == 4 { '4' }
        else if d == 5 { '5' } else if d == 6 { '6' } else if d == 7 { '7' } else if d == 8 { '8' } else { '9' }
    } else if d == 10 { 'a' } else if d == 11 { 'b' } else if d == 12 { 'c' } else if d == 13 { 'd' } else if d == 14 { 'e' }
    else { 'f' }
}

fn hex_chars(n: u32) -> (r: Vec<char>)
    ensures
        r@ == hex(n as nat),
    decreases n,
{
    if n < 16 {
        let v: Vec<char> = vec![hex_digit(n)];
        assert(v@ =~= seq![hex_char(n as int)]);
        v
    } else {
        let mut v = hex_chars(n / 16);
        v.push(hex_digit(n % 16));
        v
    }
}

/// The path of the stroke-order drawing of glyph `g` (none for an empty glyph).
pub fn svg_path(g: &str) -> (r: Option<String>)
    ensures
        match r {
            Some(p) => spec_svg_path(g@) == Some(p@),
            None => spec_svg_path(g@) is None,
        },
{
    let c = chars_of(g);
    if c.len() == 0 {
        return None;
    }
    let digits = hex_chars(c[0] as u32);
    let mut v: Vec<char> = Vec::new();
    push_str(&mut v, "data/sources/kanjivg/kanji/");
    let ghost head = v@;
    let mut pad: usize = digits.len();
    while pad < 5
        invariant
            digits.len() <= pad <= 5 || (pad == digits.len() && pad >= 5),
            v@ == head + Seq::new((pad - digits.len()) as nat, |i: int| '0'),
        decreases 5 - pad,
    {
        v.push('0');
        proof {
            assert(v@ =~= head + Seq::new((pad + 1 - digits.len()) as nat, |i: int| '0'));
        }
        pad = pad + 1;
    }
    let ghost padded = v@;
    let mut i: usize = 0;
    while i < digits.len()
        invariant
            i <= digits@.len(),
            v@ == padded + digits@.take(i as int),
        decreases digits.len() - i,
    {
        v.push(digits[i]);
        proof {
            assert(v@ =~= padded + digits@.take(i + 1));
        }
        i = i + 1;
    }
    push_str(&mut v, ".svg");
    proof {
        assert(digits@.take(digits@.len() as int) =~= digits@);
        let pz = pad_zeros(hex(c@[0] as u32 as nat), 5);
        if digits@.len() >= 5 {
            assert(Seq::new(0nat, |i: int| '0') =~= Seq::<char>::empty());
            assert(padded =~= head);
        }
        assert(padded + digits@ =~= head + pz);
        assert(v@ =~= "data/sources/kanjivg/kanji/"@ + pz + ".svg"@);
    }
    Some(string_of(&v))
}

} // verus!
