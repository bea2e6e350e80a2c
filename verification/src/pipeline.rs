//! Content-pipeline algorithms that shape the curriculum: the learning order within a level,
//! the primary keyword of a kanji, the parsing of component-decomposition lines, the paths of
//! a level's authored files, the seed's metadata, and which reading is marked dominant.

use vstd::prelude::*;
use crate::text::{
    chars_of, str_eq, string_of, spec_trim, trim_chars, lowercase,
    to_lowercase, spec_words, words_of, push_str, lex_lt, lex_less, chars_eq,
    lemma_lex_transitive, lemma_lex_total, lemma_char_scalar,
};
use crate::stroke::{occurs_at, first_occurrence, find_from};
use crate::topo::{
    Rank, acyclic_by, kahn_choice, rank_choice, ready_at, greedy_topo, greedy_topo_order, law_acyclic_completes,
    law_kahn_after_prerequisites,
};

verus! {

/// A kanji as assembled from the sources, before it is stored.
pub struct KanjiRow {
    pub glyph: String,
    /// The level it belongs to (the level's learning order).
    pub level_id: i64,
    pub strokes: Option<i64>,
    /// Frequency rank (lower = more frequent).
    pub freq: Option<i64>,
    pub keyword: String,
    pub meanings: Vec<String>,
    pub on: Vec<String>,
    pub kun: Vec<String>,
    pub components: Vec<String>,
}

/// No two rows share a glyph.
pub open spec fn rows_glyphs_distinct(rows: Seq<KanjiRow>) -> bool {
    forall|i: int, j: int|
        0 <= i < rows.len() && 0 <= j < rows.len() && i != j ==> #[trigger] rows[i].glyph@ != #[trigger] rows[j].glyph@
}

/// `g` is one of the strings of `v`.
pub open spec fn contains_str(v: Seq<String>, g: Seq<char>) -> bool {
    exists|i: int| 0 <= i < v.len() && v[i]@ == g
}

/// Whether `g` is one of the strings of `v`.
pub fn vec_contains_str(v: &Vec<String>, g: &String) -> (b: bool)
    ensures
        b == contains_str(v@, g@),
{
    let mut i: usize = 0;
    while i < v.len()
        invariant
            i <= v@.len(),
            forall|j: int| 0 <= j < i ==> v@[j]@ != g@,
        decreases v.len() - i,
    {
        if str_eq(v[i].as_str(), g.as_str()) {
            return true;
        }
        i = i + 1;
    }
    false
}

/// Positions, among the first `n` rows, of the rows whose glyph is in `scope` (row order).
pub open spec fn scope_nodes(rows: Seq<KanjiRow>, scope: Seq<String>, n: int) -> Seq<usize>
    decreases n,
{
    if n <= 0 {
        Seq::empty()
    } else {
        let r = scope_nodes(rows, scope, n - 1);
        if contains_str(scope, rows[n - 1].glyph@) {
            r.push((n - 1) as usize)
        } else {
            r
        }
    }
}

/// The nodes of a level: positions of the rows whose glyph is in `scope`.
pub open spec fn level_nodes(rows: Seq<KanjiRow>, scope: Seq<String>) -> Seq<usize> {
    scope_nodes(rows, scope, rows.len() as int)
}

/// The glyph of node `j`.
pub open spec fn node_glyph(rows: Seq<KanjiRow>, nodes: Seq<usize>, j: int) -> Seq<char> {
    rows[nodes[j] as int].glyph@
}

/// Nodes among the first `n` whose glyph is a component of node `k`'s kanji other than itself.
pub open spec fn pre_upto(rows: Seq<KanjiRow>, nodes: Seq<usize>, k: int, n: int) -> Seq<usize>
    decreases n,
{
    if n <= 0 {
        Seq::empty()
    } else {
        let r = pre_upto(rows, nodes, k, n - 1);
        let g = node_glyph(rows, nodes, n - 1);
        if contains_str(rows[nodes[k] as int].components@, g) && g != node_glyph(rows, nodes, k) {
            r.push((n - 1) as usize)
        } else {
            r
        }
    }
}

/// Each node's prerequisite nodes: the same-level kanji among its components.
pub open spec fn node_pres(rows: Seq<KanjiRow>, nodes: Seq<usize>) -> Seq<Seq<usize>> {
    Seq::new(nodes.len(), |k: int| pre_upto(rows, nodes, k, nodes.len() as int))
}

/// Node `k` has a component that is in scope (and is not its own glyph) but is no node: it
/// can never become ready.
pub open spec fn node_blocked(rows: Seq<KanjiRow>, scope: Seq<String>, nodes: Seq<usize>, k: int) -> bool {
    exists|q: int| #[trigger] component_blocks(rows, scope, nodes, k, q)
}

/// Component `q` of node `k` is in scope, is not the node's own glyph, and is no node.
pub open spec fn component_blocks(rows: Seq<KanjiRow>, scope: Seq<String>, nodes: Seq<usize>, k: int, q: int) -> bool {
    let c = rows[nodes[k] as int].components@[q]@;
    &&& 0 <= q < rows[nodes[k] as int].components@.len()
    &&& contains_str(scope, c)
    &&& c != node_glyph(rows, nodes, k)
    &&& forall|j: int| 0 <= j < nodes.len() ==> #[trigger] node_glyph(rows, nodes, j) != c
}

/// Which nodes are blocked.
pub open spec fn node_blockeds(rows: Seq<KanjiRow>, scope: Seq<String>, nodes: Seq<usize>) -> Seq<bool> {
    Seq::new(nodes.len(), |k: int| node_blocked(rows, scope, nodes, k))
}

/// A row's learning-order rank: frequency rank, then stroke count, then first codepoint
/// (missing values last).
pub open spec fn row_rank(row: KanjiRow) -> Rank {
    (
        match row.freq {
            Some(f) => f,
            None => i64::MAX,
        },
        match row.strokes {
            Some(s) => s,
            None => i64::MAX,
        },
        if row.glyph@.len() > 0 {
            row.glyph@[0] as u32
        } else {
            u32::MAX
        },
    )
}

/// The rank of each node.
pub open spec fn node_ranks(rows: Seq<KanjiRow>, nodes: Seq<usize>) -> Seq<Rank> {
    Seq::new(nodes.len(), |k: int| row_rank(rows[nodes[k] as int]))
}

proof fn lemma_scope_nodes(rows: Seq<KanjiRow>, scope: Seq<String>, n: int, t: int)
    requires
        0 <= n <= rows.len() <= usize::MAX,
        0 <= t < scope_nodes(rows, scope, n).len(),
    ensures
        scope_nodes(rows, scope, n)[t] < n,
        forall|u: int| 0 <= u < t ==> scope_nodes(rows, scope, n)[u] < scope_nodes(rows, scope, n)[t],
    decreases n,
{
    let r = scope_nodes(rows, scope, n - 1);
    if t < r.len() {
        lemma_scope_nodes(rows, scope, n - 1, t);
    } else {
        assert forall|u: int| 0 <= u < t implies scope_nodes(rows, scope, n)[u] < scope_nodes(rows, scope, n)[t] by {
            lemma_scope_nodes(rows, scope, n - 1, u);
        }
    }
}

proof fn lemma_pre_upto(rows: Seq<KanjiRow>, nodes: Seq<usize>, k: int, n: int, t: int)
    requires
        0 <= n <= nodes.len() <= usize::MAX,
        0 <= t < pre_upto(rows, nodes, k, n).len(),
    ensures
        pre_upto(rows, nodes, k, n)[t] < n,
    decreases n,
{
    let r = pre_upto(rows, nodes, k, n - 1);
    if t < r.len() {
        lemma_pre_upto(rows, nodes, k, n - 1, t);
    }
}

/// Whether some node has glyph `c`.
fn node_with_glyph(rows: &Vec<KanjiRow>, nodes: &Vec<usize>, c: &String) -> (b: bool)
    requires
        forall|j: int| 0 <= j < nodes@.len() ==> #[trigger] nodes@[j] < rows@.len(),
    ensures
        b == exists|j: int| 0 <= j < nodes@.len() && #[trigger] node_glyph(rows@, nodes@, j) == c@,
{
    let mut j: usize = 0;
    while j < nodes.len()
        invariant
            j <= nodes@.len(),
            forall|i: int| 0 <= i < nodes@.len() ==> #[trigger] nodes@[i] < rows@.len(),
            forall|i: int| 0 <= i < j ==> #[trigger] node_glyph(rows@, nodes@, i) != c@,
        decreases nodes.len() - j,
    {
        if str_eq(rows[nodes[j]].glyph.as_str(), c.as_str()) {
            assert(node_glyph(rows@, nodes@, j as int) == c@);
            return true;
        }
        j = j + 1;
    }
    false
}

/// The frequency-weighted topological order of the rows whose glyph is in `scope` (one
/// level): among kanji whose same-level component kanji are all placed, the best-ranked
/// (most frequent, then fewest strokes, then lowest codepoint) comes next. Components outside
/// the scope (other levels' kanji, bare radicals) never gate. Kanji that can never become ready
/// follow in rank order, so none is dropped. Returns the in-scope glyphs in learning order.
pub fn topological_order(rows: &Vec<KanjiRow>, scope: &Vec<String>) -> (out: Vec<String>)
    requires
        rows_glyphs_distinct(rows@),
    ensures
        exists|ord: Seq<usize>, m: int|
            {
                &&& #[trigger] greedy_topo_order(
                    level_nodes(rows@, scope@).len() as usize,
                    node_pres(rows@, level_nodes(rows@, scope@)),
                    node_blockeds(rows@, scope@, level_nodes(rows@, scope@)),
                    node_ranks(rows@, level_nodes(rows@, scope@)),
                    ord,
                    m,
                )
                &&& out@.len() == ord.len()
                &&& forall|i: int|
                    0 <= i < ord.len() ==> (#[trigger] out@[i])@ == node_glyph(
                        rows@,
                        level_nodes(rows@, scope@),
                        ord[i] as int,
                    )
            },
{
    let ghost rs = rows@;
    // The in-scope rows.
    let mut nodes: Vec<usize> = Vec::new();
    let mut r: usize = 0;
    while r < rows.len()
        invariant
            r <= rs.len(),
            rs == rows@,
            nodes@ == scope_nodes(rs, scope@, r as int),
        decreases rows.len() - r,
    {
        if vec_contains_str(scope, &rows[r].glyph) {
            nodes.push(r);
        }
        r = r + 1;
    }
    let ghost ns = nodes@;
    let n = nodes.len();
    proof {
        assert forall|j: int| 0 <= j < ns.len() implies #[trigger] ns[j] < rs.len() by {
            lemma_scope_nodes(rs, scope@, rs.len() as int, j);
        }
    }
    // Each node's prerequisite nodes, blocked flag and rank.
    let mut pre: Vec<Vec<usize>> = Vec::new();
    let mut blocked: Vec<bool> = Vec::new();
    let mut ranks: Vec<Rank> = Vec::new();
    let mut k: usize = 0;
    while k < n
        invariant
            k <= n == ns.len(),
            rs == rows@,
            ns == nodes@,
            forall|j: int| 0 <= j < ns.len() ==> #[trigger] ns[j] < rs.len(),
            pre@.len() == k,
            blocked@.len() == k,
            ranks@.len() == k,
            forall|i: int| 0 <= i < k ==> (#[trigger] pre@[i])@ == pre_upto(rs, ns, i, n as int),
            forall|i: int| 0 <= i < k ==> #[trigger] blocked@[i] == node_blocked(rs, scope@, ns, i),
            forall|i: int| 0 <= i < k ==> #[trigger] ranks@[i] == row_rank(rs[ns[i] as int]),
        decreases n - k,
    {
        let row = &rows[nodes[k]];
        let mut p: Vec<usize> = Vec::new();
        let mut j: usize = 0;
        while j < n
            invariant
                j <= n == ns.len(),
                rs == rows@,
                ns == nodes@,
                k < n,
                *row == rs[ns[k as int] as int],
                forall|i: int| 0 <= i < ns.len() ==> #[trigger] ns[i] < rs.len(),
                p@ == pre_upto(rs, ns, k as int, j as int),
            decreases n - j,
        {
            let g = &rows[nodes[j]].glyph;
            if vec_contains_str(&row.components, g) && !str_eq(g.as_str(), row.glyph.as_str()) {
                p.push(j);
            }
            j = j + 1;
        }
        let mut b = false;
        let mut q: usize = 0;
        while q < row.components.len()
            invariant
                q <= row.components@.len(),
                rs == rows@,
                ns == nodes@,
                k < n == ns.len(),
                *row == rs[ns[k as int] as int],
                forall|i: int| 0 <= i < ns.len() ==> #[trigger] ns[i] < rs.len(),
                b ==> node_blocked(rs, scope@, ns, k as int),
                !b ==> forall|w: int| 0 <= w < q ==> !#[trigger] component_blocks(rs, scope@, ns, k as int, w),
            decreases row.components.len() - q,
        {
            let c = &row.components[q];
            if !b && !str_eq(c.as_str(), row.glyph.as_str()) && vec_contains_str(scope, c)
                && !node_with_glyph(rows, &nodes, c) {
                b = true;
                proof {
                    assert(component_blocks(rs, scope@, ns, k as int, q as int));
                }
            }
            q = q + 1;
        }
        let first = {
            let gc = chars_of(row.glyph.as_str());
            if gc.len() > 0 {
                gc[0] as u32
            } else {
                u32::MAX
            }
        };
        let f = match row.freq {
            Some(f) => f,
            None => i64::MAX,
        };
        let s = match row.strokes {
            Some(s) => s,
            None => i64::MAX,
        };
        pre.push(p);
        blocked.push(b);
        ranks.push((f, s, first));
        k = k + 1;
    }
    proof {
        assert(pre@.map_values(|v: Vec<usize>| v@) =~= node_pres(rs, ns));
        assert(blocked@ =~= node_blockeds(rs, scope@, ns));
        assert(ranks@ =~= node_ranks(rs, ns));
        assert forall|a: int, q: int| 0 <= a < n && 0 <= q < node_pres(rs, ns)[a].len() implies
            #[trigger] node_pres(rs, ns)[a][q] < n by {
            lemma_pre_upto(rs, ns, a, n as int, q);
        }
    }
    let (ord, m) = greedy_topo(n, &pre, &blocked, &ranks);
    let mut out: Vec<String> = Vec::new();
    let mut i: usize = 0;
    while i < ord.len()
        invariant
            i <= ord@.len() == n,
            n == ns.len(),
            rs == rows@,
            ns == nodes@,
            forall|j: int| 0 <= j < ns.len() ==> #[trigger] ns[j] < rs.len(),
            forall|j: int| 0 <= j < ord@.len() ==> #[trigger] ord@[j] < n,
            out@.len() == i,
            forall|j: int| 0 <= j < i ==> (#[trigger] out@[j])@ == node_glyph(rs, ns, ord@[j] as int),
        decreases ord.len() - i,
    {
        out.push(rows[nodes[ord[i]]].glyph.clone());
        i = i + 1;
    }
    proof {
        assert(ns == level_nodes(rows@, scope@));
        assert(forall|j: int| 0 <= j < ord@.len() ==> (#[trigger] out@[j])@ == node_glyph(rows@, level_nodes(rows@, scope@), ord@[j] as int));
        assert(greedy_topo_order(
            ns.len() as usize,
            node_pres(rows@, ns),
            node_blockeds(rows@, scope@, ns),
            node_ranks(rows@, ns),
            ord@,
            m as int,
        ));
    }
    out
}


proof fn lemma_pre_upto_contains(rows: Seq<KanjiRow>, nodes: Seq<usize>, k: int, n: int, x: int)
    requires
        0 <= x < n <= nodes.len() <= usize::MAX,
        contains_str(rows[nodes[k] as int].components@, node_glyph(rows, nodes, x)),
        node_glyph(rows, nodes, x) != node_glyph(rows, nodes, k),
    ensures
        pre_upto(rows, nodes, k, n).contains(x as usize),
    decreases n,
{
    let r = pre_upto(rows, nodes, k, n - 1);
    if x == n - 1 {
        assert(pre_upto(rows, nodes, k, n).last() == x as usize);
    } else {
        lemma_pre_upto_contains(rows, nodes, k, n - 1, x);
        let w = choose|w: int| 0 <= w < r.len() && r[w] == x as usize;
        assert(pre_upto(rows, nodes, k, n)[w] == x as usize);
    }
}

/// A kanji with a frequency rank is learnt before one without: in the learning order of a
/// level, the kanji placed at position `i` has a frequency rank whenever some other kanji that
/// was still unplaced at that point (and, within the Kahn phase, ready) has a frequency rank
/// below `i64::MAX`. Of two ready kanji that both have a rank, the lower rank (the more
/// frequent kanji) is placed first.
pub proof fn law_ranked_kanji_first(
    rows: Seq<KanjiRow>,
    scope: Seq<String>,
    ord: Seq<usize>,
    m: int,
    i: int,
    k: usize,
)
    requires
        greedy_topo_order(
            level_nodes(rows, scope).len() as usize,
            node_pres(rows, level_nodes(rows, scope)),
            node_blockeds(rows, scope, level_nodes(rows, scope)),
            node_ranks(rows, level_nodes(rows, scope)),
            ord,
            m,
        ),
        level_nodes(rows, scope).len() <= usize::MAX,
        0 <= i < ord.len(),
        k < level_nodes(rows, scope).len(),
        !ord.take(i).contains(k),
        i < m ==> ready_at(
            node_pres(rows, level_nodes(rows, scope)),
            node_blockeds(rows, scope, level_nodes(rows, scope)),
            ord.take(i),
            k,
        ),
    ensures
        ({
            let nodes = level_nodes(rows, scope);
            let placed = rows[nodes[ord[i] as int] as int];
            let other = rows[nodes[k as int] as int];
            &&& (other.freq matches Some(f) && f < i64::MAX) ==> placed.freq is Some
            &&& (placed.freq is Some && other.freq is Some) ==> placed.freq->0 <= other.freq->0
        }),
{
    let nodes = level_nodes(rows, scope);
    let n = nodes.len() as usize;
    let pre = node_pres(rows, nodes);
    let blocked = node_blockeds(rows, scope, nodes);
    let ranks = node_ranks(rows, nodes);
    assert(k < n);
    if i < m {
        assert(kahn_choice(n, pre, blocked, ranks, ord, i));
        assert(ready_at(pre, blocked, ord.take(i), k));
        assert(crate::topo::better(ranks, ord[i], k));
    } else {
        assert(rank_choice(n, ranks, ord, i));
        assert(crate::topo::better(ranks, ord[i], k));
    }
    assert(ranks[ord[i] as int] == row_rank(rows[nodes[ord[i] as int] as int]));
    assert(ranks[k as int] == row_rank(rows[nodes[k as int] as int]));
}

/// In a level whose same-level components form no cycle and are all present, every kanji of
/// the learning order comes after every same-level kanji among its components.
pub proof fn law_order_respects_components(
    rows: Seq<KanjiRow>,
    scope: Seq<String>,
    depth: Seq<nat>,
    ord: Seq<usize>,
    m: int,
)
    requires
        rows.len() <= usize::MAX,
        greedy_topo_order(
            level_nodes(rows, scope).len() as usize,
            node_pres(rows, level_nodes(rows, scope)),
            node_blockeds(rows, scope, level_nodes(rows, scope)),
            node_ranks(rows, level_nodes(rows, scope)),
            ord,
            m,
        ),
        acyclic_by(level_nodes(rows, scope).len() as usize, node_pres(rows, level_nodes(rows, scope)), depth),
        forall|k: int| 0 <= k < level_nodes(rows, scope).len() ==> !node_blocked(rows, scope, level_nodes(rows, scope), k),
    ensures
        m == level_nodes(rows, scope).len(),
        forall|i: int, x: int|
            0 <= i < ord.len() && 0 <= x < level_nodes(rows, scope).len() && #[trigger] contains_str(
                rows[level_nodes(rows, scope)[ord[i] as int] as int].components@,
                node_glyph(rows, level_nodes(rows, scope), x),
            ) && node_glyph(rows, level_nodes(rows, scope), x) != node_glyph(
                rows,
                level_nodes(rows, scope),
                ord[i] as int,
            ) ==> ord.take(i).contains(x as usize),
{
    let nodes = level_nodes(rows, scope);
    let n = nodes.len() as usize;
    let pre = node_pres(rows, nodes);
    let blocked = node_blockeds(rows, scope, nodes);
    let ranks = node_ranks(rows, nodes);
    assert(nodes.len() <= rows.len()) by {
        lemma_scope_nodes_len(rows, scope, rows.len() as int);
    }
    assert forall|a: int, q: int| 0 <= a < n && 0 <= q < pre[a].len() implies #[trigger] pre[a][q] < n by {
        lemma_pre_upto(rows, nodes, a, n as int, q);
    }
    law_acyclic_completes(n, pre, blocked, ranks, depth, ord, m);
    law_kahn_after_prerequisites(n, pre, blocked, ranks, ord, m);
    assert forall|i: int, x: int|
        0 <= i < ord.len() && 0 <= x < nodes.len() && #[trigger] contains_str(
            rows[nodes[ord[i] as int] as int].components@,
            node_glyph(rows, nodes, x),
        ) && node_glyph(rows, nodes, x) != node_glyph(rows, nodes, ord[i] as int) implies ord.take(i).contains(
        x as usize,
    ) by {
        let k = ord[i] as int;
        lemma_pre_upto_contains(rows, nodes, k, n as int, x);
        let q = choose|q: int| 0 <= q < pre[k].len() && pre[k][q] == x as usize;
        assert(ord.take(i).contains(pre[k][q]));
    }
}

proof fn lemma_scope_nodes_len(rows: Seq<KanjiRow>, scope: Seq<String>, n: int)
    requires
        0 <= n,
    ensures
        scope_nodes(rows, scope, n).len() <= n,
    decreases n,
{
    if n > 0 {
        lemma_scope_nodes_len(rows, scope, n - 1);
    }
}


// ---------------------------------------------------------------------------------------------
// Primary keyword.
// ---------------------------------------------------------------------------------------------

/// The scan of a gloss up to its first `n` characters: bracket depth, the characters kept (those
/// outside brackets), and whether a top-level comma ended the scan.
pub open spec fn keyword_scan(raw: Seq<char>, n: int) -> (nat, Seq<char>, bool)
    decreases n,
{
    if n <= 0 {
        (0, Seq::empty(), false)
    } else {
        let (depth, kept, stopped) = keyword_scan(raw, n - 1);
        let ch = raw[n - 1];
        if stopped {
            (depth, kept, stopped)
        } else if ch == '(' || ch == '[' {
            ((depth + 1) as nat, kept, false)
        } else if ch == ')' || ch == ']' {
            (if depth > 0 { (depth - 1) as nat } else { 0 }, kept, false)
        } else if ch == ',' && depth == 0 {
            (depth, kept, true)
        } else if depth == 0 {
            (depth, kept.push(ch), false)
        } else {
            (depth, kept, false)
        }
    }
}

/// The primary keyword of a gloss: parenthetical and bracketed parts dropped, the text up to
/// the first top-level comma, trimmed and lowercased.
pub open spec fn spec_normalize_keyword(raw: Seq<char>) -> Seq<char> {
    lowercase(spec_trim(keyword_scan(raw, raw.len() as int).1))
}

/// Normalize a dictionary gloss into a concise primary keyword.
pub fn normalize_keyword(raw: &str) -> (r: String)
    ensures
        r@ == spec_normalize_keyword(raw@),
{
    let v = chars_of(raw);
    let mut kept: Vec<char> = Vec::new();
    let mut depth: usize = 0;
    let mut stopped = false;
    let mut i: usize = 0;
    while i < v.len()
        invariant
            i <= v@.len(),
            v@ == raw@,
            depth <= i,
            keyword_scan(raw@, i as int) == (depth as nat, kept@, stopped),
        decreases v.len() - i,
    {
        let ch = v[i];
        if !stopped {
            if ch == '(' || ch == '[' {
                depth = depth + 1;
            } else if ch == ')' || ch == ']' {
                depth = if depth > 0 { depth - 1 } else { 0 };
            } else if ch == ',' && depth == 0 {
                stopped = true;
            } else if depth == 0 {
                kept.push(ch);
            }
        }
        i = i + 1;
    }
    let t = trim_chars(&kept);
    let ts = string_of(&t);
    to_lowercase(ts.as_str())
}

// ---------------------------------------------------------------------------------------------
// Component decomposition lines.
// ---------------------------------------------------------------------------------------------

/// The separator between a kanji and its components.
pub open spec fn krad_separator() -> Seq<char> {
    seq![' ', ':', ' ']
}

/// What a decomposition line `kanji : comp1 comp2 ...` gives: the trimmed kanji and its
/// white-space-separated components. Comment lines (starting with `#`), blank lines, and lines
/// without the ` : ` separator give nothing.
pub open spec fn spec_krad_line(line: Seq<char>) -> Option<(Seq<char>, Seq<Seq<char>>)> {
    if (line.len() > 0 && line[0] == '#') || spec_trim(line).len() == 0 {
        None
    } else if exists|p: int| first_occurrence(line, krad_separator(), p) {
        let p = choose|p: int| first_occurrence(line, krad_separator(), p);
        Some((spec_trim(line.take(p)), spec_words(line.skip(p + 3))))
    } else {
        None
    }
}

/// Parse one decomposition line.
pub fn parse_krad_line(line: &str) -> (r: Option<(String, Vec<String>)>)
    ensures
        match r {
            Some(e) => spec_krad_line(line@) == Some((e.0@, e.1@.map_values(|x: String| x@))),
            None => spec_krad_line(line@) is None,
        },
{
    let v = chars_of(line);
    if v.len() > 0 && v[0] == '#' {
        return None;
    }
    let t = trim_chars(&v);
    if t.len() == 0 {
        return None;
    }
    let sep: Vec<char> = vec![' ', ':', ' '];
    assert(sep@ =~= krad_separator());
    match find_from(&v, &sep, 0) {
        None => {
            assert(v@.skip(0) =~= v@);
            proof {
                if exists|p: int| first_occurrence(v@, krad_separator(), p) {
                    let p = choose|p: int| first_occurrence(v@, krad_separator(), p);
                    assert(occurs_at(v@.skip(0), sep@, p));
                }
            }
            None
        },
        Some(p) => {
            assert(v@.skip(0) =~= v@);
            proof {
                let q = choose|q: int| first_occurrence(line@, krad_separator(), q);
                assert(first_occurrence(v@, sep@, p as int));
                if q < p {
                    assert(!occurs_at(v@, sep@, q));
                } else if q > p {
                    assert(!occurs_at(v@, sep@, p as int));
                }
            }
            let mut head: Vec<char> = Vec::new();
            let mut i: usize = 0;
            while i < p
                invariant
                    i <= p <= v@.len(),
                    head@ == v@.take(i as int),
                decreases p - i,
            {
                head.push(v[i]);
                proof {
                    assert(head@ =~= v@.take(i + 1));
                }
                i = i + 1;
            }
            let mut rest: Vec<char> = Vec::new();
            let mut j: usize = p + 3;
            while j < v.len()
                invariant
                    p + 3 <= v@.len(),
                    p + 3 <= j <= v@.len(),
                    rest@ == v@.subrange(p + 3, j as int),
                decreases v.len() - j,
            {
                rest.push(v[j]);
                proof {
                    assert(rest@ =~= v@.subrange(p + 3, j + 1));
                }
                j = j + 1;
            }
            assert(rest@ =~= v@.skip(p + 3));
            let key = string_of(&trim_chars(&head));
            let rs = string_of(&rest);
            let comps = words_of(rs.as_str());
            Some((key, comps))
        },
    }
}

/// The entries of a decomposition file: every line that gives a kanji and its components, in
/// line order.
pub open spec fn krad_entries(lines: Seq<String>, n: int) -> Seq<(Seq<char>, Seq<Seq<char>>)>
    decreases n,
{
    if n <= 0 {
        Seq::empty()
    } else {
        let prev = krad_entries(lines, n - 1);
        match spec_krad_line(lines[n - 1]@) {
            Some(e) => prev.push(e),
            None => prev,
        }
    }
}

/// Entries as values.
pub open spec fn krad_view(k: Seq<(String, Vec<String>)>) -> Seq<(Seq<char>, Seq<Seq<char>>)> {
    k.map_values(|e: (String, Vec<String>)| (e.0@, e.1@.map_values(|x: String| x@)))
}

/// Parse a decomposition file, line by line.
pub fn parse_kradfile(lines: &Vec<String>) -> (r: Vec<(String, Vec<String>)>)
    ensures
        krad_view(r@) == krad_entries(lines@, lines@.len() as int),
{
    let mut r: Vec<(String, Vec<String>)> = Vec::new();
    let mut i: usize = 0;
    while i < lines.len()
        invariant
            i <= lines@.len(),
            krad_view(r@) == krad_entries(lines@, i as int),
        decreases lines.len() - i,
    {
        match parse_krad_line(lines[i].as_str()) {
            Some(e) => {
                let ghost old_r = r@;
                r.push(e);
                proof {
                    assert(krad_view(r@) =~= krad_view(old_r).push((e.0@, e.1@.map_values(|x: String| x@))));
                }
            },
            None => {},
        }
        i = i + 1;
    }
    r
}

/// The components of `glyph`: those of its last entry (a later line replaces an earlier one),
/// none without an entry.
pub open spec fn components_for(entries: Seq<(Seq<char>, Seq<Seq<char>>)>, glyph: Seq<char>) -> Seq<Seq<char>>
    decreases entries.len(),
{
    if entries.len() == 0 {
        Seq::empty()
    } else if entries.last().0 == glyph {
        entries.last().1
    } else {
        components_for(entries.drop_last(), glyph)
    }
}

/// The components of `glyph` in a parsed decomposition file.
pub fn components_of(krad: &Vec<(String, Vec<String>)>, glyph: &String) -> (r: Vec<String>)
    ensures
        r@.map_values(|x: String| x@) == components_for(krad_view(krad@), glyph@),
{
    let ghost kv = krad_view(krad@);
    let mut i: usize = krad.len();
    assert(kv.take(kv.len() as int) =~= kv);
    while i > 0
        invariant
            i <= krad@.len() == kv.len(),
            kv == krad_view(krad@),
            components_for(kv, glyph@) == components_for(kv.take(i as int), glyph@),
        decreases i,
    {
        proof {
            assert(kv.take(i as int).drop_last() =~= kv.take(i - 1));
            assert(kv.take(i as int).last() == kv[i - 1]);
        }
        if str_eq(krad[i - 1].0.as_str(), glyph.as_str()) {
            let mut r: Vec<String> = Vec::new();
            let comps = &krad[i - 1].1;
            let mut k: usize = 0;
            while k < comps.len()
                invariant
                    k <= comps@.len(),
                    r@ == comps@.take(k as int),
                decreases comps.len() - k,
            {
                r.push(comps[k].clone());
                proof {
                    assert(r@ =~= comps@.take(k + 1));
                }
                k = k + 1;
            }
            assert(comps@.take(comps@.len() as int) =~= comps@);
            return r;
        }
        i = i - 1;
    }
    let r: Vec<String> = Vec::new();
    assert(r@.map_values(|x: String| x@) =~= Seq::<Seq<char>>::empty());
    r
}

// ---------------------------------------------------------------------------------------------
// Levels, authored files, and seed metadata.
// ---------------------------------------------------------------------------------------------

/// The JLPT levels built, in learning order: (JLPT number, label, learning order).
pub fn levels() -> (r: Vec<(i64, &'static str, i64)>)
    ensures
        r@.len() == 1,
        r@[0].0 == 5 && r@[0].1@ == "N5"@ && r@[0].2 == 1,
{
    vec![(5, "N5", 1)]
}

/// The authored files of one level (each optional).
pub struct LevelAuthored {
    pub keywords: String,
    pub components: String,
    pub mnemonics: String,
    pub dominant: String,
    pub vglosses: String,
}

/// The path of a level's authored file: `data/authored/{label, lowercased}{suffix}`.
pub open spec fn authored_path(label: Seq<char>, suffix: Seq<char>) -> Seq<char> {
    "data/authored/"@ + lowercase(label) + suffix
}

fn authored_file(lower: &str, suffix: &str) -> (r: String)
    ensures
        r@ == "data/authored/"@ + lower@ + suffix@,
{
    let mut v: Vec<char> = Vec::new();
    push_str(&mut v, "data/authored/");
    push_str(&mut v, lower);
    push_str(&mut v, suffix);
    string_of(&v)
}

/// The authored file paths of the level with label `label`.
pub fn level_authored(label: &str) -> (r: LevelAuthored)
    ensures
        r.keywords@ == authored_path(label@, "-keywords.json"@),
        r.components@ == authored_path(label@, "-component-actors.json"@),
        r.mnemonics@ == authored_path(label@, "-mnemonics.json"@),
        r.dominant@ == authored_path(label@, "-dominant-readings.json"@),
        r.vglosses@ == authored_path(label@, "-vocab-glosses.json"@),
{
    let p = to_lowercase(label);
    LevelAuthored {
        keywords: authored_file(p.as_str(), "-keywords.json"),
        components: authored_file(p.as_str(), "-component-actors.json"),
        mnemonics: authored_file(p.as_str(), "-mnemonics.json"),
        dominant: authored_file(p.as_str(), "-dominant-readings.json"),
        vglosses: authored_file(p.as_str(), "-vocab-glosses.json"),
    }
}

/// The decimal digit `d`.
pub open spec fn digit_char(d: int) -> char {
    if d == 0 { '0' } else if d == 1 { '1' } else if d == 2 { '2' } else if d == 3 { '3' } else if d == 4 { '4' }
    else if d == 5 { '5' } else if d == 6 { '6' } else if d == 7 { '7' } else if d == 8 { '8' } else { '9' }
}

/// The decimal notation of `n`.
pub open spec fn decimal(n: nat) -> Seq<char>
    decreases n,
{
    if n < 10 {
        seq![digit_char(n as int)]
    } else {
        decimal(n / 10).push(digit_char((n % 10) as int))
    }
}

fn digit(d: u64) -> (c: char)
    requires
        d < 10,
    ensures
        c == digit_char(d as int),
{
    if d == 0 { '0' } else if d == 1 { '1' } else if d == 2 { '2' } else if d == 3 { '3' } else if d == 4 { '4' }
    else if d == 5 { '5' } else if d == 6 { '6' } else if d == 7 { '7' } else if d == 8 { '8' } else { '9' }
}

/// The decimal notation of `n`.
pub fn decimal_string(n: u64) -> (r: String)
    ensures
        r@ == decimal(n as nat),
    decreases n,
{
    if n < 10 {
        let v: Vec<char> = vec![digit(n)];
        assert(v@ =~= seq![digit_char(n as int)]);
        string_of(&v)
    } else {
        let head = decimal_string(n / 10);
        let mut v = chars_of(head.as_str());
        v.push(digit(n % 10));
        string_of(&v)
    }
}

/// The metadata stored with the seed: schema version, content slice, levels, kanji count, how
/// dominant readings were chosen, and attribution.
pub fn build_meta(rows: &Vec<KanjiRow>) -> (r: Vec<(&'static str, String)>)
    ensures
        r@.len() == 6,
        r@[0].0@ == "schema_version"@ && r@[0].1@ == "1"@,
        r@[1].0@ == "slice"@ && r@[1].1@ == "5 (dominant readings, vocabulary, example sentences, stroke order)"@,
        r@[2].0@ == "levels"@ && r@[2].1@ == "N5"@,
        r@[3].0@ == "kanji_count"@ && r@[3].1@ == decimal(rows@.len()),
        r@[4].0@ == "dominant_reading"@ && r@[4].1@ ==
            "derived from JMdict-common x JmdictFurigana; overridable via data/authored/n5-dominant-readings.json"@,
        r@[5].0@ == "attribution"@ && r@[5].1@ ==
            "Kanji data from KANJIDIC2 (c) EDRDG, CC BY-SA 4.0, via davidluzgouveia/kanji-data (MIT). Component decomposition from kradfile-u, CC BY-SA. WaniKani-derived fields are NOT used. See docs/04-DATA-SOURCES.md."@,
{
    let ls = levels();
    let mut labels: Vec<char> = Vec::new();
    let mut i: usize = 0;
    while i < ls.len()
        invariant
            i <= ls@.len(),
            ls@.len() == 1,
            ls@[0].1@ == "N5"@,
            i == 0 ==> labels@ == Seq::<char>::empty(),
            i == 1 ==> labels@ == "N5"@,
        decreases ls.len() - i,
    {
        if i > 0 {
            push_str(&mut labels, ", ");
        }
        push_str(&mut labels, ls[i].1);
        proof {
            assert(i == 0);
            assert(labels@ =~= "N5"@);
        }
        i = i + 1;
    }
    vec![
        ("schema_version", "1".to_owned()),
        ("slice", "5 (dominant readings, vocabulary, example sentences, stroke order)".to_owned()),
        ("levels", string_of(&labels)),
        ("kanji_count", decimal_string(rows.len() as u64)),
        ("dominant_reading",
            "derived from JMdict-common x JmdictFurigana; overridable via data/authored/n5-dominant-readings.json".to_owned()),
        ("attribution",
            "Kanji data from KANJIDIC2 (c) EDRDG, CC BY-SA 4.0, via davidluzgouveia/kanji-data (MIT). Component decomposition from kradfile-u, CC BY-SA. WaniKani-derived fields are NOT used. See docs/04-DATA-SOURCES.md.".to_owned()),
    ]
}


// ---------------------------------------------------------------------------------------------
// Marking dominant readings.
// ---------------------------------------------------------------------------------------------

/// The authored dominant reading of `g`: the last override for it, as (reading, kind).
pub open spec fn override_for(ov: Seq<(String, String, String)>, g: Seq<char>) -> Option<(Seq<char>, Seq<char>)>
    decreases ov.len(),
{
    if ov.len() == 0 {
        None
    } else if ov.last().0@ == g {
        Some((ov.last().1@, ov.last().2@))
    } else {
        override_for(ov.drop_last(), g)
    }
}

/// The derived dominant reading of `g`, as (reading, kind).
pub open spec fn derived_for(d: Seq<(String, (String, String))>, g: Seq<char>) -> Option<(Seq<char>, Seq<char>)>
    decreases d.len(),
{
    if d.len() == 0 {
        None
    } else if d[0].0@ == g {
        Some((d[0].1.0@, d[0].1.1@))
    } else {
        derived_for(d.drop_first(), g)
    }
}

/// The dominant reading marked for a kanji, as (reading, kind), and whether it came from the
/// derived or authored readings: an authored override, else the derived reading, else (a
/// fallback) the first on'yomi, else the first kun'yomi.
pub open spec fn spec_dominant_choice(
    d: Seq<(String, (String, String))>,
    ov: Seq<(String, String, String)>,
    row: KanjiRow,
) -> (Option<(Seq<char>, Seq<char>)>, bool) {
    match override_for(ov, row.glyph@) {
        Some(x) => (Some(x), true),
        None => match derived_for(d, row.glyph@) {
            Some(x) => (Some(x), true),
            None => if row.on@.len() > 0 {
                (Some((row.on@[0]@, "on"@)), false)
            } else if row.kun@.len() > 0 {
                (Some((row.kun@[0]@, "kun"@)), false)
            } else {
                (None, false)
            },
        },
    }
}

fn override_of(ov: &Vec<(String, String, String)>, g: &String) -> (r: Option<(String, String)>)
    ensures
        match r {
            Some(x) => override_for(ov@, g@) == Some((x.0@, x.1@)),
            None => override_for(ov@, g@) is None,
        },
{
    let mut i: usize = ov.len();
    assert(ov@.take(ov@.len() as int) =~= ov@);
    while i > 0
        invariant
            i <= ov@.len(),
            override_for(ov@, g@) == override_for(ov@.take(i as int), g@),
        decreases i,
    {
        proof {
            assert(ov@.take(i as int).drop_last() =~= ov@.take(i - 1));
            assert(ov@.take(i as int).last() == ov@[i - 1]);
        }
        if str_eq(ov[i - 1].0.as_str(), g.as_str()) {
            return Some((ov[i - 1].1.clone(), ov[i - 1].2.clone()));
        }
        i = i - 1;
    }
    None
}

fn derived_of(d: &Vec<(String, (String, String))>, g: &String) -> (r: Option<(String, String)>)
    ensures
        match r {
            Some(x) => derived_for(d@, g@) == Some((x.0@, x.1@)),
            None => derived_for(d@, g@) is None,
        },
{
    let mut i: usize = 0;
    assert(d@.skip(0) =~= d@);
    while i < d.len()
        invariant
            i <= d@.len(),
            derived_for(d@, g@) == derived_for(d@.skip(i as int), g@),
        decreases d.len() - i,
    {
        proof {
            assert(d@.skip(i as int).drop_first() =~= d@.skip(i + 1));
            assert(d@.skip(i as int)[0] == d@[i as int]);
        }
        if str_eq(d[i].0.as_str(), g.as_str()) {
            return Some((d[i].1.0.clone(), d[i].1.1.clone()));
        }
        i = i + 1;
    }
    None
}

/// The dominant reading marked for one kanji (see `spec_dominant_choice`).
pub fn dominant_choice(
    derived: &Vec<(String, (String, String))>,
    overrides: &Vec<(String, String, String)>,
    row: &KanjiRow,
) -> (r: (Option<(String, String)>, bool))
    ensures
        r.1 == spec_dominant_choice(derived@, overrides@, *row).1,
        match r.0 {
            Some(x) => spec_dominant_choice(derived@, overrides@, *row).0 == Some((x.0@, x.1@)),
            None => spec_dominant_choice(derived@, overrides@, *row).0 is None,
        },
{
    match override_of(overrides, &row.glyph) {
        Some(x) => (Some(x), true),
        None => match derived_of(derived, &row.glyph) {
            Some(x) => (Some(x), true),
            None => {
                if row.on.len() > 0 {
                    (Some((row.on[0].clone(), "on".to_owned())), false)
                } else if row.kun.len() > 0 {
                    (Some((row.kun[0].clone(), "kun".to_owned())), false)
                } else {
                    (None, false)
                }
            },
        },
    }
}

/// The readings to mark dominant for the first `n` rows, as (glyph, reading, kind), with how
/// many came from derived or authored readings and how many from the fallback.
pub open spec fn dominant_plan(
    d: Seq<(String, (String, String))>,
    ov: Seq<(String, String, String)>,
    rows: Seq<KanjiRow>,
    n: int,
) -> (Seq<(Seq<char>, Seq<char>, Seq<char>)>, nat, nat)
    decreases n,
{
    if n <= 0 {
        (Seq::empty(), 0, 0)
    } else {
        let (marks, derived, fallback) = dominant_plan(d, ov, rows, n - 1);
        let (choice, from_derived) = spec_dominant_choice(d, ov, rows[n - 1]);
        match choice {
            Some(x) => (marks.push((rows[n - 1].glyph@, x.0, x.1)), if from_derived { derived + 1 } else { derived },
                if from_derived { fallback } else { fallback + 1 }),
            None => (marks, derived, fallback),
        }
    }
}

/// Marks as values.
pub open spec fn marks_view(m: Seq<(String, String, String)>) -> Seq<(Seq<char>, Seq<char>, Seq<char>)> {
    m.map_values(|x: (String, String, String)| (x.0@, x.1@, x.2@))
}

/// The dominant readings to mark for every kanji, with the derived and fallback counts.
pub fn plan_dominant(
    derived: &Vec<(String, (String, String))>,
    overrides: &Vec<(String, String, String)>,
    rows: &Vec<KanjiRow>,
) -> (r: (Vec<(String, String, String)>, usize, usize))
    ensures
        (marks_view(r.0@), r.1 as nat, r.2 as nat) == dominant_plan(derived@, overrides@, rows@, rows@.len() as int),
{
    let mut marks: Vec<(String, String, String)> = Vec::new();
    let mut nd: usize = 0;
    let mut nf: usize = 0;
    let mut i: usize = 0;
    while i < rows.len()
        invariant
            i <= rows@.len(),
            nd + nf <= i,
            (marks_view(marks@), nd as nat, nf as nat) == dominant_plan(derived@, overrides@, rows@, i as int),
        decreases rows.len() - i,
    {
        let (choice, from_derived) = dominant_choice(derived, overrides, &rows[i]);
        match choice {
            Some(x) => {
                let ghost old_m = marks@;
                marks.push((rows[i].glyph.clone(), x.0, x.1));
                proof {
                    assert(marks_view(marks@) =~= marks_view(old_m).push((rows@[i as int].glyph@, x.0@, x.1@)));
                }
                if from_derived {
                    nd = nd + 1;
                } else {
                    nf = nf + 1;
                }
            },
            None => {},
        }
        i = i + 1;
    }
    (marks, nd, nf)
}


/// Every kanji with a reading gets a dominant reading marked, and each marked reading is
/// counted once, as derived or as fallback.
pub proof fn law_every_read_kanji_marked(
    d: Seq<(String, (String, String))>,
    ov: Seq<(String, String, String)>,
    rows: Seq<KanjiRow>,
    n: int,
)
    requires
        0 <= n <= rows.len(),
    ensures
        dominant_plan(d, ov, rows, n).1 + dominant_plan(d, ov, rows, n).2 == dominant_plan(d, ov, rows, n).0.len(),
        forall|i: int| 0 <= i < n && (rows[i].on@.len() > 0 || rows[i].kun@.len() > 0) ==> exists|k: int|
            0 <= k < dominant_plan(d, ov, rows, n).0.len() && (#[trigger] dominant_plan(d, ov, rows, n).0[k]).0 == rows[i].glyph@,
    decreases n,
{
    if n > 0 {
        law_every_read_kanji_marked(d, ov, rows, n - 1);
        let prev = dominant_plan(d, ov, rows, n - 1).0;
        let cur = dominant_plan(d, ov, rows, n).0;
        assert forall|i: int| 0 <= i < n && (rows[i].on@.len() > 0 || rows[i].kun@.len() > 0) implies exists|k: int|
            0 <= k < cur.len() && (#[trigger] cur[k]).0 == rows[i].glyph@ by {
            if i < n - 1 {
                let k = choose|k: int| 0 <= k < prev.len() && (#[trigger] prev[k]).0 == rows[i].glyph@;
                assert(cur[k] == prev[k]);
            } else {
                assert(cur[prev.len() as int].0 == rows[i].glyph@);
            }
        }
    }
}


// ---------------------------------------------------------------------------------------------
// Sorted sets of glyphs, and glyph ids.
// ---------------------------------------------------------------------------------------------

/// `v` is in strictly increasing lexicographic order (so no string occurs twice).
pub open spec fn strictly_sorted(v: Seq<String>) -> bool {
    forall|i: int, j: int| 0 <= i < j < v.len() ==> lex_lt(#[trigger] v[i]@, #[trigger] v[j]@)
}

/// Add `g` to the strictly sorted `v` at its place, unless it is there already.
pub fn insert_sorted_str(v: &mut Vec<String>, g: &String)
    requires
        strictly_sorted(old(v)@),
    ensures
        strictly_sorted(final(v)@),
        forall|x: Seq<char>| contains_str(final(v)@, x) <==> (contains_str(old(v)@, x) || x == g@),
{
    let gc = chars_of(g.as_str());
    let mut p: usize = 0;
    while p < v.len() && lex_less(&chars_of(v[p].as_str()), &gc)
        invariant
            p <= v@.len(),
            gc@ == g@,
            forall|k: int| 0 <= k < p ==> lex_lt(#[trigger] v@[k]@, g@),
        decreases v.len() - p,
    {
        p = p + 1;
    }
    if p < v.len() && chars_eq(&chars_of(v[p].as_str()), &gc) {
        return;
    }
    let ghost old_v = v@;
    proof {
        if p < old_v.len() {
            lemma_lex_total(old_v[p as int]@, g@);
        }
        assert forall|j: int| p <= j < old_v.len() implies lex_lt(g@, #[trigger] old_v[j]@) by {
            if j > p {
                lemma_lex_transitive(g@, old_v[p as int]@, old_v[j]@);
            }
        }
    }
    v.insert(p, g.clone());
    proof {
        let nv = v@;
        assert(nv == old_v.insert(p as int, *g));
        assert forall|i: int, j: int| 0 <= i < j < nv.len() implies lex_lt(#[trigger] nv[i]@, #[trigger] nv[j]@) by {
            if j < p {
                assert(nv[i] == old_v[i] && nv[j] == old_v[j]);
            } else if j == p {
                assert(nv[i] == old_v[i]);
            } else if i < p {
                assert(nv[i] == old_v[i] && nv[j] == old_v[j - 1]);
                lemma_lex_transitive(old_v[i]@, g@, old_v[j - 1]@);
            } else if i == p {
                assert(nv[j] == old_v[j - 1]);
            } else {
                assert(nv[i] == old_v[i - 1] && nv[j] == old_v[j - 1]);
            }
        }
        assert forall|x: Seq<char>| contains_str(nv, x) <==> (contains_str(old_v, x) || x == g@) by {
            if contains_str(nv, x) {
                let i = choose|i: int| 0 <= i < nv.len() && nv[i]@ == x;
                if i < p {
                    assert(old_v[i]@ == x);
                } else if i > p {
                    assert(old_v[i - 1]@ == x);
                }
            }
            if contains_str(old_v, x) {
                let i = choose|i: int| 0 <= i < old_v.len() && old_v[i]@ == x;
                if i < p {
                    assert(nv[i]@ == x);
                } else {
                    assert(nv[i + 1]@ == x);
                }
            }
            if x == g@ {
                assert(nv[p as int]@ == x);
            }
        }
    }
}

/// The glyphs of level `jlpt` among `(glyph, level)` entries, each once, in lexicographic order.
pub fn level_glyphs(entries: &Vec<(String, Option<i64>)>, jlpt: i64) -> (r: Vec<String>)
    ensures
        strictly_sorted(r@),
        forall|x: Seq<char>| contains_str(r@, x) <==> exists|k: int|
            0 <= k < entries@.len() && (#[trigger] entries@[k]).1 == Some(jlpt) && entries@[k].0@ == x,
{
    let mut r: Vec<String> = Vec::new();
    let mut i: usize = 0;
    while i < entries.len()
        invariant
            i <= entries@.len(),
            strictly_sorted(r@),
            forall|x: Seq<char>| contains_str(r@, x) <==> exists|k: int|
                0 <= k < i && (#[trigger] entries@[k]).1 == Some(jlpt) && entries@[k].0@ == x,
        decreases entries.len() - i,
    {
        if entries[i].1 == Some(jlpt) {
            insert_sorted_str(&mut r, &entries[i].0);
        }
        proof {
            assert forall|x: Seq<char>| contains_str(r@, x) <==> exists|k: int|
                0 <= k < i + 1 && (#[trigger] entries@[k]).1 == Some(jlpt) && entries@[k].0@ == x by {
                if exists|k: int| 0 <= k < i + 1 && (#[trigger] entries@[k]).1 == Some(jlpt) && entries@[k].0@ == x {
                    let k = choose|k: int| 0 <= k < i + 1 && (#[trigger] entries@[k]).1 == Some(jlpt) && entries@[k].0@ == x;
                    if k < i {
                    }
                }
            }
        }
        i = i + 1;
    }
    r
}

/// The components of all rows, each once, in lexicographic order.
pub fn distinct_components(rows: &Vec<KanjiRow>) -> (r: Vec<String>)
    ensures
        strictly_sorted(r@),
        forall|x: Seq<char>| contains_str(r@, x) <==> exists|k: int|
            0 <= k < rows@.len() && contains_str((#[trigger] rows@[k]).components@, x),
{
    let mut r: Vec<String> = Vec::new();
    let mut i: usize = 0;
    while i < rows.len()
        invariant
            i <= rows@.len(),
            strictly_sorted(r@),
            forall|x: Seq<char>| contains_str(r@, x) <==> exists|k: int|
                0 <= k < i && contains_str((#[trigger] rows@[k]).components@, x),
        decreases rows.len() - i,
    {
        let comps = &rows[i].components;
        let mut j: usize = 0;
        while j < comps.len()
            invariant
                i < rows@.len(),
                comps == &rows@[i as int].components,
                j <= comps@.len(),
                strictly_sorted(r@),
                forall|x: Seq<char>| contains_str(r@, x) <==> ((exists|k: int|
                    0 <= k < i && contains_str((#[trigger] rows@[k]).components@, x))
                    || exists|q: int| 0 <= q < j && (#[trigger] comps@[q])@ == x),
            decreases comps.len() - j,
        {
            insert_sorted_str(&mut r, &comps[j]);
            j = j + 1;
        }
        proof {
            assert forall|x: Seq<char>| contains_str(r@, x) <==> exists|k: int|
                0 <= k < i + 1 && contains_str((#[trigger] rows@[k]).components@, x) by {
                if contains_str(rows@[i as int].components@, x) {
                    let q = choose|q: int| 0 <= q < comps@.len() && comps@[q]@ == x;
                    assert(comps@[q]@ == x);
                }
                if exists|k: int| 0 <= k < i + 1 && contains_str((#[trigger] rows@[k]).components@, x) {
                    let k = choose|k: int| 0 <= k < i + 1 && contains_str((#[trigger] rows@[k]).components@, x);
                    if k == i {
                        let q = choose|q: int| 0 <= q < comps@.len() && comps@[q]@ == x;
                        assert(comps@[q]@ == x);
                    }
                }
            }
        }
        i = i + 1;
    }
    r
}

/// The id a kanji is stored under: the scalar value of the first character of its glyph.
pub fn kanji_id_of(glyph: &str) -> (r: Option<i64>)
    ensures
        glyph@.len() == 0 ==> r is None,
        glyph@.len() > 0 ==> r is Some && r->0 == glyph@[0] as int,
{
    let c = chars_of(glyph);
    if c.len() == 0 {
        None
    } else {
        let u = c[0] as u32;
        proof {
            lemma_char_scalar(c@[0]);
        }
        Some(u as i64)
    }
}

} // verus!
