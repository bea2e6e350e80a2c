//! Character-level access to strings: the library reads text as sequences of Unicode
//! scalar values (`char`s) and builds text back from them.

use vstd::prelude::*;

verus! {

/// The characters of `s`, in order (std `str::chars` collected into a vector).
#[verifier::external_body]
pub(crate) fn chars_of(s: &str) -> (r: Vec<char>)
    ensures
        r@ == s@,
{
    s.chars().collect()
}

/// The string made of the characters of `v`, in order (std `FromIterator<char>` for `String`).
#[verifier::external_body]
pub(crate) fn string_of(v: &Vec<char>) -> (r: String)
    ensures
        r@ == v@,
{
    v.iter().collect()
}

/// Whether two character sequences are equal.
pub fn chars_eq(a: &Vec<char>, b: &Vec<char>) -> (r: bool)
    ensures
        r == (a@ == b@),
{
    if a.len() != b.len() {
        return false;
    }
    let mut i: usize = 0;
    while i < a.len()
        invariant
            a.len() == b.len(),
            i <= a.len(),
            forall|j: int| 0 <= j < i ==> a@[j] == b@[j],
        decreases a.len() - i,
    {
        if a[i] != b[i] {
            return false;
        }
        i = i + 1;
    }
    assert(a@ =~= b@);
    true
}

/// Whether two strings hold the same characters.
pub fn str_eq(a: &str, b: &str) -> (r: bool)
    ensures
        r == (a@ == b@),
{
    let x = chars_of(a);
    let y = chars_of(b);
    chars_eq(&x, &y)
}


/// Whether a character has the Unicode `White_Space` property (the property that std's
/// `char::is_whitespace` and `str::trim` test): the controls U+0009 to U+000D, the space, U+0085,
/// the no-break space, the Ogham space mark, the spaces U+2000 to U+200A, the line and paragraph
/// separators, the narrow no-break space, the medium mathematical space and the ideographic
/// space.
pub open spec fn is_white_space(c: char) -> bool {
    let u = c as int;
    ||| 0x9 <= u <= 0xD
    ||| u == 0x20
    ||| u == 0x85
    ||| u == 0xA0
    ||| u == 0x1680
    ||| 0x2000 <= u <= 0x200A
    ||| u == 0x2028
    ||| u == 0x2029
    ||| u == 0x202F
    ||| u == 0x205F
    ||| u == 0x3000
}

/// Whether `c` is white space (Unicode `White_Space`).
pub(crate) fn char_is_whitespace(c: char) -> (b: bool)
    ensures
        b == is_white_space(c),
{
    let u = c as u32;
    (0x9 <= u && u <= 0xD) || u == 0x20 || u == 0x85 || u == 0xA0 || u == 0x1680 || (0x2000 <= u && u
        <= 0x200A) || u == 0x2028 || u == 0x2029 || u == 0x202F || u == 0x205F || u == 0x3000
}

/// The lowercase mapping of a string (what std's `str::to_lowercase` returns).
pub uninterp spec fn lowercase(s: Seq<char>) -> Seq<char>;

/// std `str::to_lowercase`.
#[verifier::external_body]
pub(crate) fn to_lowercase(s: &str) -> (r: String)
    ensures
        r@ == lowercase(s@),
{
    s.to_lowercase()
}

/// std `char::from_u32`: the character with scalar value `u` for every value outside the
/// surrogate range and at most `0x10FFFF`, and `None` for every other value.
#[verifier::external_body]
pub(crate) fn char_from_u32(u: u32) -> (r: Option<char>)
    ensures
        (u < 0xD800 || (0xE000 <= u <= 0x10FFFF)) ==> r == Some(u as char),
        !(u < 0xD800 || (0xE000 <= u <= 0x10FFFF)) ==> r is None,
{
    char::from_u32(u)
}

/// Number of leading white-space characters.
pub open spec fn leading_ws(s: Seq<char>) -> nat
    decreases s.len(),
{
    if s.len() == 0 || !is_white_space(s[0]) {
        0
    } else {
        1 + leading_ws(s.drop_first())
    }
}

/// Number of trailing white-space characters.
pub open spec fn trailing_ws(s: Seq<char>) -> nat
    decreases s.len(),
{
    if s.len() == 0 || !is_white_space(s.last()) {
        0
    } else {
        1 + trailing_ws(s.drop_last())
    }
}

/// `s` without leading and trailing white space (std `str::trim`).
pub open spec fn spec_trim(s: Seq<char>) -> Seq<char> {
    let t = s.skip(leading_ws(s) as int);
    t.take(t.len() - trailing_ws(t))
}

proof fn lemma_leading_unique(s: Seq<char>, a: int)
    requires
        0 <= a <= s.len(),
        forall|k: int| 0 <= k < a ==> is_white_space(#[trigger] s[k]),
        a < s.len() ==> !is_white_space(s[a]),
    ensures
        leading_ws(s) == a,
    decreases s.len(),
{
    if a > 0 {
        assert(is_white_space(s[0]));
        assert forall|k: int| 0 <= k < a - 1 implies is_white_space(#[trigger] s.drop_first()[k]) by {
            assert(s.drop_first()[k] == s[k + 1]);
        }
        if a - 1 < s.drop_first().len() {
            assert(s.drop_first()[a - 1] == s[a]);
        }
        lemma_leading_unique(s.drop_first(), a - 1);
    }
}

proof fn lemma_trailing_unique(s: Seq<char>, b: int)
    requires
        0 <= b <= s.len(),
        forall|k: int| s.len() - b <= k < s.len() ==> is_white_space(#[trigger] s[k]),
        b < s.len() ==> !is_white_space(s[s.len() - 1 - b]),
    ensures
        trailing_ws(s) == b,
    decreases s.len(),
{
    if b > 0 {
        assert(is_white_space(s.last()));
        let t = s.drop_last();
        assert forall|k: int| t.len() - (b - 1) <= k < t.len() implies is_white_space(#[trigger] t[k]) by {
            assert(t[k] == s[k]);
        }
        if b - 1 < t.len() {
            assert(t[t.len() - 1 - (b - 1)] == s[s.len() - 1 - b]);
        }
        lemma_trailing_unique(t, b - 1);
    }
}

/// `v` without leading and trailing white space.
pub fn trim_chars(v: &Vec<char>) -> (r: Vec<char>)
    ensures
        r@ == spec_trim(v@),
{
    let n = v.len();
    let mut a: usize = 0;
    while a < n && char_is_whitespace(v[a])
        invariant
            a <= n == v@.len(),
            forall|k: int| 0 <= k < a ==> is_white_space(#[trigger] v@[k]),
        decreases n - a,
    {
        a = a + 1;
    }
    proof {
        lemma_leading_unique(v@, a as int);
    }
    let mut b: usize = n;
    while b > a && char_is_whitespace(v[b - 1])
        invariant
            a <= b <= n == v@.len(),
            forall|k: int| b <= k < n ==> is_white_space(#[trigger] v@[k]),
        decreases b,
    {
        b = b - 1;
    }
    let mut r: Vec<char> = Vec::new();
    let mut i: usize = a;
    while i < b
        invariant
            a <= i <= b <= n == v@.len(),
            r@ == v@.subrange(a as int, i as int),
        decreases b - i,
    {
        r.push(v[i]);
        proof {
            assert(r@ =~= v@.subrange(a as int, i + 1));
        }
        i = i + 1;
    }
    proof {
        let t = v@.skip(a as int);
        assert forall|k: int| t.len() - (n - b) <= k < t.len() implies is_white_space(#[trigger] t[k]) by {
            assert(t[k] == v@[k + a]);
        }
        if n - b < t.len() {
            assert(t[t.len() - 1 - (n - b)] == v@[b - 1]);
        }
        lemma_trailing_unique(t, (n - b) as int);
        assert(r@ =~= t.take(t.len() - (n - b)));
    }
    r
}

/// `s` without leading and trailing white space (std `str::trim`, on characters).
pub fn trim(s: &str) -> (r: String)
    ensures
        r@ == spec_trim(s@),
{
    let v = chars_of(s);
    let t = trim_chars(&v);
    string_of(&t)
}


/// Number of leading characters that are not white space.
pub open spec fn token_len(s: Seq<char>) -> nat
    decreases s.len(),
{
    if s.len() == 0 || is_white_space(s[0]) {
        0
    } else {
        1 + token_len(s.drop_first())
    }
}

/// The first white-space-separated token of `s`, if it has one (std
/// `str::split_whitespace().next()`).
pub open spec fn spec_first_token(s: Seq<char>) -> Option<Seq<char>> {
    let t = s.skip(leading_ws(s) as int);
    if t.len() == 0 {
        None
    } else {
        Some(t.take(token_len(t) as int))
    }
}

proof fn lemma_token_unique(s: Seq<char>, a: int)
    requires
        0 <= a <= s.len(),
        forall|k: int| 0 <= k < a ==> !is_white_space(#[trigger] s[k]),
        a < s.len() ==> is_white_space(s[a]),
    ensures
        token_len(s) == a,
    decreases s.len(),
{
    if a > 0 {
        assert(!is_white_space(s[0]));
        assert forall|k: int| 0 <= k < a - 1 implies !is_white_space(#[trigger] s.drop_first()[k]) by {
            assert(s.drop_first()[k] == s[k + 1]);
        }
        if a - 1 < s.drop_first().len() {
            assert(s.drop_first()[a - 1] == s[a]);
        }
        lemma_token_unique(s.drop_first(), a - 1);
    }
}

/// The first white-space-separated token of `s`.
pub fn first_token(s: &str) -> (r: Option<String>)
    ensures
        match r {
            Some(t) => spec_first_token(s@) == Some(t@),
            None => spec_first_token(s@) is None,
        },
{
    let v = chars_of(s);
    let n = v.len();
    let mut a: usize = 0;
    while a < n && char_is_whitespace(v[a])
        invariant
            a <= n == v@.len(),
            forall|k: int| 0 <= k < a ==> is_white_space(#[trigger] v@[k]),
        decreases n - a,
    {
        a = a + 1;
    }
    proof {
        lemma_leading_unique(v@, a as int);
    }
    if a == n {
        return None;
    }
    let mut b: usize = a;
    let mut r: Vec<char> = Vec::new();
    while b < n && !char_is_whitespace(v[b])
        invariant
            a <= b <= n == v@.len(),
            forall|k: int| a <= k < b ==> !is_white_space(#[trigger] v@[k]),
            r@ == v@.subrange(a as int, b as int),
        decreases n - b,
    {
        r.push(v[b]);
        proof {
            assert(r@ =~= v@.subrange(a as int, b + 1));
        }
        b = b + 1;
    }
    proof {
        let t = v@.skip(a as int);
        assert forall|k: int| 0 <= k < b - a implies !is_white_space(#[trigger] t[k]) by {
            assert(t[k] == v@[k + a]);
        }
        if b - a < t.len() {
            assert(t[b - a] == v@[b as int]);
        }
        lemma_token_unique(t, (b - a) as int);
        assert(r@ =~= t.take((b - a) as int));
    }
    Some(string_of(&r))
}


/// Strict lexicographic order on character sequences, characters compared by scalar value
/// (the order of std's `String` comparison, since UTF-8 preserves scalar-value order).
pub open spec fn lex_lt(a: Seq<char>, b: Seq<char>) -> bool
    decreases a.len(),
{
    if b.len() == 0 {
        false
    } else if a.len() == 0 {
        true
    } else if a[0] != b[0] {
        (a[0] as int) < (b[0] as int)
    } else {
        lex_lt(a.drop_first(), b.drop_first())
    }
}

/// No sequence comes before itself.
pub proof fn lemma_lex_irreflexive(a: Seq<char>)
    ensures
        !lex_lt(a, a),
    decreases a.len(),
{
    if a.len() > 0 {
        lemma_lex_irreflexive(a.drop_first());
    }
}

/// The order is transitive.
pub proof fn lemma_lex_transitive(a: Seq<char>, b: Seq<char>, c: Seq<char>)
    requires
        lex_lt(a, b),
        lex_lt(b, c),
    ensures
        lex_lt(a, c),
    decreases a.len(),
{
    if a.len() > 0 && a[0] == b[0] && b[0] == c[0] {
        lemma_lex_transitive(a.drop_first(), b.drop_first(), c.drop_first());
    }
}

/// Of two different sequences, one comes first.
pub proof fn lemma_lex_total(a: Seq<char>, b: Seq<char>)
    ensures
        a == b || lex_lt(a, b) || lex_lt(b, a),
    decreases a.len(),
{
    if a.len() > 0 && b.len() > 0 && a[0] == b[0] {
        lemma_lex_total(a.drop_first(), b.drop_first());
        if a.drop_first() == b.drop_first() {
            assert(a =~= seq![a[0]] + a.drop_first());
            assert(b =~= seq![b[0]] + b.drop_first());
        }
    } else if a.len() == 0 && b.len() == 0 {
        assert(a =~= b);
    } else if a.len() > 0 && b.len() > 0 {
        assert((a[0] as int) != (b[0] as int));
    }
}

/// A character's scalar value fits a `u32`.
pub(crate) proof fn lemma_char_scalar(c: char)
    ensures
        (c as u32) as int == c as int,
{
}

/// Whether `a` comes strictly before `b` in lexicographic order.
pub fn lex_less(a: &Vec<char>, b: &Vec<char>) -> (r: bool)
    ensures
        r == lex_lt(a@, b@),
{
    let mut i: usize = 0;
    assert(a@.skip(0) =~= a@);
    assert(b@.skip(0) =~= b@);
    while i < a.len() && i < b.len()
        invariant
            i <= a@.len(),
            i <= b@.len(),
            lex_lt(a@, b@) == lex_lt(a@.skip(i as int), b@.skip(i as int)),
        decreases a.len() - i,
    {
        assert(a@.skip(i as int)[0] == a@[i as int]);
        assert(b@.skip(i as int)[0] == b@[i as int]);
        if a[i] != b[i] {
            let x = a[i] as u32;
            let y = b[i] as u32;
            proof {
                lemma_char_scalar(a@[i as int]);
                lemma_char_scalar(b@[i as int]);
            }
            return x < y;
        }
        assert(a@.skip(i as int).drop_first() =~= a@.skip(i + 1));
        assert(b@.skip(i as int).drop_first() =~= b@.skip(i + 1));
        i = i + 1;
    }
    i < b.len()
}


/// Append the characters of `s` to `v`.
pub fn push_str(v: &mut Vec<char>, s: &str)
    ensures
        final(v)@ == old(v)@ + s@,
{
    let c = chars_of(s);
    let ghost head = v@;
    let mut i: usize = 0;
    while i < c.len()
        invariant
            i <= c@.len(),
            c@ == s@,
            v@ == head + c@.take(i as int),
        decreases c.len() - i,
    {
        v.push(c[i]);
        proof {
            assert(v@ =~= head + c@.take(i + 1));
        }
        i = i + 1;
    }
    assert(c@.take(c@.len() as int) =~= c@);
}

/// The white-space-separated tokens of `s`, in order (std `str::split_whitespace`).
pub open spec fn spec_words(s: Seq<char>) -> Seq<Seq<char>>
    decreases s.len(),
{
    let a = leading_ws(s);
    if a >= s.len() {
        Seq::empty()
    } else {
        let t = s.skip(a as int);
        let k = token_len(t);
        if k == 0 || k > t.len() {
            Seq::empty()
        } else {
            seq![t.take(k as int)] + spec_words(t.skip(k as int))
        }
    }
}

/// The white-space-separated tokens of `s`.
pub fn words_of(s: &str) -> (r: Vec<String>)
    ensures
        r@.map_values(|x: String| x@) == spec_words(s@),
{
    let v = chars_of(s);
    let n = v.len();
    let mut r: Vec<String> = Vec::new();
    let mut i: usize = 0;
    assert(v@.skip(0) =~= v@);
    while i < n
        invariant
            i <= n == v@.len(),
            v@ == s@,
            r@.map_values(|x: String| x@) + spec_words(v@.skip(i as int)) == spec_words(s@),
        decreases n - i,
    {
        let ghost rest = v@.skip(i as int);
        let mut a: usize = i;
        while a < n && char_is_whitespace(v[a])
            invariant
                i <= a <= n == v@.len(),
                forall|k: int| i <= k < a ==> is_white_space(#[trigger] v@[k]),
            decreases n - a,
        {
            a = a + 1;
        }
        proof {
            assert forall|k: int| 0 <= k < a - i implies is_white_space(#[trigger] rest[k]) by {
                assert(rest[k] == v@[k + i]);
            }
            if a < n {
                assert(rest[a - i] == v@[a as int]);
            }
            lemma_leading_unique(rest, (a - i) as int);
        }
        if a == n {
            proof {
                assert(spec_words(rest) == Seq::<Seq<char>>::empty());
                assert(r@.map_values(|x: String| x@) + spec_words(rest) =~= r@.map_values(|x: String| x@));
                assert(v@.skip(n as int) =~= Seq::<char>::empty());
                assert(spec_words(v@.skip(n as int)) =~= Seq::<Seq<char>>::empty());
                assert(r@.map_values(|x: String| x@) + spec_words(v@.skip(n as int)) =~= r@.map_values(|x: String| x@));
            }
            i = n;
        } else {
            let mut b: usize = a;
            let mut tok: Vec<char> = Vec::new();
            while b < n && !char_is_whitespace(v[b])
                invariant
                    a <= b <= n == v@.len(),
                    forall|k: int| a <= k < b ==> !is_white_space(#[trigger] v@[k]),
                    tok@ == v@.subrange(a as int, b as int),
                decreases n - b,
            {
                tok.push(v[b]);
                proof {
                    assert(tok@ =~= v@.subrange(a as int, b + 1));
                }
                b = b + 1;
            }
            proof {
                let t = rest.skip((a - i) as int);
                assert(t =~= v@.skip(a as int));
                assert forall|k: int| 0 <= k < b - a implies !is_white_space(#[trigger] t[k]) by {
                    assert(t[k] == v@[k + a]);
                }
                if b < n {
                    assert(t[b - a] == v@[b as int]);
                }
                lemma_token_unique(t, (b - a) as int);
                assert(!is_white_space(t[0]));
                assert(t.take((b - a) as int) =~= tok@);
                assert(t.skip((b - a) as int) =~= v@.skip(b as int));
                assert(spec_words(rest) == seq![tok@] + spec_words(v@.skip(b as int)));
            }
            let ghost old_r = r@;
            r.push(string_of(&tok));
            proof {
                assert(r@.map_values(|x: String| x@) =~= old_r.map_values(|x: String| x@).push(tok@));
                assert(r@.map_values(|x: String| x@) + spec_words(v@.skip(b as int)) =~= old_r.map_values(|x: String| x@)
                    + (seq![tok@] + spec_words(v@.skip(b as int))));
            }
            i = b;
        }
    }
    proof {
        assert(v@.skip(n as int) =~= Seq::<char>::empty());
        assert(spec_words(v@.skip(n as int)) =~= Seq::<Seq<char>>::empty());
        assert(r@.map_values(|x: String| x@) + spec_words(v@.skip(n as int)) =~= r@.map_values(|x: String| x@));
    }
    r
}

/// The first position of `c` in `s`.
pub open spec fn index_of(s: Seq<char>, c: char) -> Option<int>
    decreases s.len(),
{
    if s.len() == 0 {
        None
    } else if s[0] == c {
        Some(0)
    } else {
        match index_of(s.drop_first(), c) {
            Some(i) => Some(i + 1),
            None => None,
        }
    }
}

/// The fields of `s` between occurrences of `c` (std `str::split` on a character).
pub open spec fn spec_split(s: Seq<char>, c: char) -> Seq<Seq<char>>
    decreases s.len(),
{
    match index_of(s, c) {
        None => seq![s],
        Some(i) => if 0 <= i < s.len() {
            seq![s.take(i)] + spec_split(s.skip(i + 1), c)
        } else {
            seq![s]
        },
    }
}

proof fn lemma_index_of(s: Seq<char>, c: char)
    ensures
        match index_of(s, c) {
            Some(i) => 0 <= i < s.len() && s[i] == c && forall|k: int| 0 <= k < i ==> s[k] != c,
            None => forall|k: int| 0 <= k < s.len() ==> s[k] != c,
        },
    decreases s.len(),
{
    if s.len() > 0 && s[0] != c {
        lemma_index_of(s.drop_first(), c);
        match index_of(s.drop_first(), c) {
            Some(i) => {
                assert forall|k: int| 0 <= k < i + 1 implies s[k] != c by {
                    if k > 0 {
                        assert(s[k] == s.drop_first()[k - 1]);
                    }
                }
            },
            None => {
                assert forall|k: int| 0 <= k < s.len() implies s[k] != c by {
                    if k > 0 {
                        assert(s[k] == s.drop_first()[k - 1]);
                    }
                }
            },
        }
    }
}

proof fn lemma_index_unique(s: Seq<char>, c: char, i: int)
    requires
        0 <= i <= s.len(),
        forall|k: int| 0 <= k < i ==> s[k] != c,
    ensures
        i < s.len() && s[i] == c ==> index_of(s, c) == Some(i),
        i == s.len() ==> index_of(s, c) is None,
{
    lemma_index_of(s, c);
}

/// The fields of `s` between occurrences of `c`.
pub fn split_char(s: &str, c: char) -> (r: Vec<String>)
    ensures
        r@.map_values(|x: String| x@) == spec_split(s@, c),
{
    let v = chars_of(s);
    let n = v.len();
    let mut r: Vec<String> = Vec::new();
    let mut i: usize = 0;
    assert(v@.skip(0) =~= v@);
    loop
        invariant
            i <= n == v@.len(),
            v@ == s@,
            r@.map_values(|x: String| x@) + spec_split(v@.skip(i as int), c) == spec_split(s@, c),
        decreases n - i,
    {
        let ghost rest = v@.skip(i as int);
        let mut j: usize = i;
        let mut field: Vec<char> = Vec::new();
        while j < n && v[j] != c
            invariant
                i <= j <= n == v@.len(),
                forall|k: int| i <= k < j ==> v@[k] != c,
                field@ == v@.subrange(i as int, j as int),
            decreases n - j,
        {
            field.push(v[j]);
            proof {
                assert(field@ =~= v@.subrange(i as int, j + 1));
            }
            j = j + 1;
        }
        proof {
            assert forall|k: int| 0 <= k < j - i implies rest[k] != c by {
                assert(rest[k] == v@[k + i]);
            }
            if j < n {
                assert(rest[j - i] == v@[j as int]);
            }
            lemma_index_unique(rest, c, (j - i) as int);
        }
        let ghost old_r = r@;
        r.push(string_of(&field));
        proof {
            assert(r@.map_values(|x: String| x@) =~= old_r.map_values(|x: String| x@).push(field@));
        }
        if j == n {
            proof {
                assert(field@ =~= rest);
                assert(spec_split(rest, c) == seq![rest]);
                assert(r@.map_values(|x: String| x@) =~= old_r.map_values(|x: String| x@) + spec_split(rest, c));
            }
            return r;
        }
        proof {
            assert(rest.take((j - i) as int) =~= field@);
            assert(rest.skip((j - i) + 1) =~= v@.skip(j + 1));
            assert(spec_split(rest, c) == seq![field@] + spec_split(v@.skip(j + 1), c));
            assert(r@.map_values(|x: String| x@) + spec_split(v@.skip(j + 1), c) =~= old_r.map_values(|x: String| x@)
                + (seq![field@] + spec_split(v@.skip(j + 1), c)));
        }
        i = j + 1;
    }
}

} // verus!
