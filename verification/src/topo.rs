//! The frequency-weighted topological learning order within one level (Kahn's algorithm with
//! a frequency tie-break): among kanji whose same-level component kanji are all placed, place
//! the best-ranked next. Kanji that can never become ready (a cycle, or a missing component)
//! follow afterwards in rank order, so no kanji is ever dropped.
//!
//! This module holds the ordering over node indices; `pipeline` builds the nodes from kanji
//! rows.

use vstd::prelude::*;

verus! {

/// A learning-order rank: (frequency rank, stroke count, first codepoint), lower first.
pub type Rank = (i64, i64, u32);

/// `a` ranks strictly before `b` (lexicographically).
pub open spec fn rank_lt(a: Rank, b: Rank) -> bool {
    a.0 < b.0 || (a.0 == b.0 && (a.1 < b.1 || (a.1 == b.1 && a.2 < b.2)))
}

/// Node `a` is chosen over node `b`: a better rank, or the same rank and an earlier node.
pub open spec fn better(ranks: Seq<Rank>, a: usize, b: usize) -> bool {
    rank_lt(ranks[a as int], ranks[b as int]) || (ranks[a as int] == ranks[b as int] && a <= b)
}

/// Node `k` is ready once `done` are placed: not blocked, and every prerequisite placed.
pub open spec fn ready_at(pre: Seq<Seq<usize>>, blocked: Seq<bool>, done: Seq<usize>, k: usize) -> bool {
    &&& !blocked[k as int]
    &&& forall|q: int| 0 <= q < pre[k as int].len() ==> done.contains(#[trigger] pre[k as int][q])
}

/// No element occurs twice.
pub open spec fn no_dups(s: Seq<usize>) -> bool {
    forall|i: int, j: int| 0 <= i < s.len() && 0 <= j < s.len() && i != j ==> s[i] != s[j]
}

/// The inputs describe `n` nodes.
pub open spec fn topo_input_wf(n: usize, pre: Seq<Seq<usize>>, blocked: Seq<bool>, ranks: Seq<Rank>) -> bool {
    &&& pre.len() == n
    &&& blocked.len() == n
    &&& ranks.len() == n
    &&& forall|k: int, q: int| 0 <= k < n && 0 <= q < pre[k].len() ==> #[trigger] pre[k][q] < n
}

/// Position `i` of `order` was a greedy Kahn choice: ready, and chosen over every other node
/// that was unplaced and ready at that point.
pub open spec fn kahn_choice(
    n: usize,
    pre: Seq<Seq<usize>>,
    blocked: Seq<bool>,
    ranks: Seq<Rank>,
    order: Seq<usize>,
    i: int,
) -> bool {
    &&& ready_at(pre, blocked, order.take(i), order[i])
    &&& forall|k: usize|
        k < n && !order.take(i).contains(k) && ready_at(pre, blocked, order.take(i), k) ==> better(
            ranks,
            order[i],
            k,
        )
}

/// Position `i` of `order` was chosen over every node still unplaced.
pub open spec fn rank_choice(n: usize, ranks: Seq<Rank>, order: Seq<usize>, i: int) -> bool {
    forall|k: usize| k < n && !order.take(i).contains(k) ==> better(ranks, order[i], k)
}

/// `order` is the greedy topological order of the `n` nodes whose first `m` positions are the
/// Kahn phase: every node once; the first `m` each the best ready node at their turn; after
/// them no node is ready; the rest each the best remaining node.
pub open spec fn greedy_topo_order(
    n: usize,
    pre: Seq<Seq<usize>>,
    blocked: Seq<bool>,
    ranks: Seq<Rank>,
    order: Seq<usize>,
    m: int,
) -> bool {
    &&& order.len() == n
    &&& no_dups(order)
    &&& forall|i: int| 0 <= i < order.len() ==> #[trigger] order[i] < n
    &&& 0 <= m <= n
    &&& forall|i: int| 0 <= i < m ==> #[trigger] kahn_choice(n, pre, blocked, ranks, order, i)
    &&& forall|k: usize| k < n && !order.take(m).contains(k) ==> !ready_at(pre, blocked, order.take(m), k)
    &&& forall|i: int| m <= i < n ==> #[trigger] rank_choice(n, ranks, order, i)
}

/// Whether every prerequisite of node `k` is marked placed.
fn is_ready(pre: &Vec<Vec<usize>>, blocked: &Vec<bool>, placed: &Vec<bool>, k: usize, Ghost(done): Ghost<Seq<usize>>) -> (r: bool)
    requires
        k < pre@.len() == blocked@.len() == placed@.len(),
        forall|q: int| 0 <= q < pre@[k as int]@.len() ==> #[trigger] pre@[k as int]@[q] < placed@.len(),
        forall|j: int| 0 <= j < placed@.len() ==> (#[trigger] placed@[j] <==> done.contains(j as usize)),
    ensures
        r == ready_at(pre@.map_values(|v: Vec<usize>| v@), blocked@, done, k),
{
    let ghost ps = pre@.map_values(|v: Vec<usize>| v@);
    assert(ps[k as int] == pre@[k as int]@);
    if blocked[k] {
        return false;
    }
    let p = &pre[k];
    let mut q: usize = 0;
    while q < p.len()
        invariant
            q <= p@.len(),
            ps == pre@.map_values(|v: Vec<usize>| v@),
            k < ps.len(),
            p@ == ps[k as int],
            forall|w: int| 0 <= w < p@.len() ==> #[trigger] p@[w] < placed@.len(),
            forall|j: int| 0 <= j < placed@.len() ==> (#[trigger] placed@[j] <==> done.contains(j as usize)),
            forall|w: int| 0 <= w < q ==> done.contains(#[trigger] p@[w]),
        decreases p.len() - q,
    {
        assert(placed@[p@[q as int] as int] <==> done.contains(p@[q as int]));
        if !placed[p[q]] {
            assert(ps[k as int][q as int] == p@[q as int]);
            assert(!done.contains(ps[k as int][q as int]));
            return false;
        }
        q = q + 1;
    }
    true
}

proof fn lemma_take_push(order: Seq<usize>, b: usize)
    ensures
        order.push(b).take(order.len() as int) == order,
        forall|i: int| 0 <= i <= order.len() ==> #[trigger] order.push(b).take(i) == order.take(i),
{
    assert(order.push(b).take(order.len() as int) =~= order);
    assert forall|i: int| 0 <= i <= order.len() implies #[trigger] order.push(b).take(i) == order.take(i) by {
        assert(order.push(b).take(i) =~= order.take(i));
    }
}

/// A list of distinct nodes below `n` that is shorter than `n` misses some node.
pub proof fn lemma_missing_node(s: Seq<usize>, n: usize)
    requires
        no_dups(s),
        forall|i: int| 0 <= i < s.len() ==> #[trigger] s[i] < n,
        s.len() < n,
    ensures
        exists|k: usize| k < n && !s.contains(k),
    decreases n,
{
    let top = (n - 1) as usize;
    if !s.contains(top) {
        assert(top < n && !s.contains(top));
    } else {
        let w = choose|w: int| 0 <= w < s.len() && s[w] == top;
        let t = s.remove(w);
        assert forall|i: int| 0 <= i < t.len() implies #[trigger] t[i] < top by {
            if i < w {
                assert(t[i] == s[i]);
                assert(s[i] != s[w]);
            } else {
                assert(t[i] == s[i + 1]);
                assert(s[i + 1] != s[w]);
            }
        }
        assert(no_dups(t)) by {
            assert forall|i: int, j: int| 0 <= i < t.len() && 0 <= j < t.len() && i != j implies t[i] != t[j] by {
                let a = if i < w { i } else { i + 1 };
                let b = if j < w { j } else { j + 1 };
                assert(t[i] == s[a] && t[j] == s[b]);
            }
        }
        lemma_missing_node(t, top);
        let k = choose|k: usize| k < top && !t.contains(k);
        if s.contains(k) {
            let v = choose|v: int| 0 <= v < s.len() && s[v] == k;
            assert(v != w);
            if v < w {
                assert(t[v] == s[v]);
            } else {
                assert(t[v - 1] == s[v]);
            }
        }
        assert(k < n && !s.contains(k));
    }
}

/// A list of distinct nodes below `n` has at most `n` entries.
pub proof fn lemma_distinct_bound(s: Seq<usize>, n: usize)
    requires
        no_dups(s),
        forall|i: int| 0 <= i < s.len() ==> #[trigger] s[i] < n,
    ensures
        s.len() <= n,
    decreases n,
{
    if s.len() > 0 {
        if n == 0 {
            assert(s[0] < 0);
        } else {
            let top = (n - 1) as usize;
            let t = if s.contains(top) {
                let w = choose|w: int| 0 <= w < s.len() && s[w] == top;
                s.remove(w)
            } else {
                s
            };
            assert(t.len() >= s.len() - 1);
            assert forall|i: int| 0 <= i < t.len() implies #[trigger] t[i] < top by {
                if s.contains(top) {
                    let w = choose|w: int| 0 <= w < s.len() && s[w] == top;
                    if i < w {
                        assert(t[i] == s[i]);
                        assert(s[i] != s[w]);
                    } else {
                        assert(t[i] == s[i + 1]);
                        assert(s[i + 1] != s[w]);
                    }
                } else {
                    assert(t[i] != top);
                }
            }
            assert(no_dups(t)) by {
                if s.contains(top) {
                    let w = choose|w: int| 0 <= w < s.len() && s[w] == top;
                    assert forall|i: int, j: int| 0 <= i < t.len() && 0 <= j < t.len() && i != j implies t[i] != t[j] by {
                        let a = if i < w { i } else { i + 1 };
                        let b = if j < w { j } else { j + 1 };
                        assert(t[i] == s[a] && t[j] == s[b]);
                    }
                }
            }
            lemma_distinct_bound(t, top);
        }
    }
}

/// The greedy topological order of `n` nodes: `pre[k]` lists the nodes that must come before
/// `k`, `blocked[k]` marks a node with a prerequisite that is not a node (it never becomes
/// ready), and `ranks` orders the choices. Returns the order and the length of its Kahn phase.
pub fn greedy_topo(n: usize, pre: &Vec<Vec<usize>>, blocked: &Vec<bool>, ranks: &Vec<Rank>) -> (r: (Vec<usize>, usize))
    requires
        topo_input_wf(n, pre@.map_values(|v: Vec<usize>| v@), blocked@, ranks@),
    ensures
        greedy_topo_order(n, pre@.map_values(|v: Vec<usize>| v@), blocked@, ranks@, r.0@, r.1 as int),
{
    let ghost ps = pre@.map_values(|v: Vec<usize>| v@);
    let mut placed: Vec<bool> = Vec::new();
    let mut z: usize = 0;
    while z < n
        invariant
            z <= n,
            placed@.len() == z,
            forall|j: int| 0 <= j < z ==> !(#[trigger] placed@[j]),
        decreases n - z,
    {
        placed.push(false);
        z = z + 1;
    }
    let mut order: Vec<usize> = Vec::new();
    let mut go = true;
    // Kahn phase: place the best ready node while there is one.
    while go && order.len() < n
        invariant
            topo_input_wf(n, ps, blocked@, ranks@),
            ps == pre@.map_values(|v: Vec<usize>| v@),
            pre@.len() == n,
            placed@.len() == n,
            order@.len() <= n,
            forall|j: int| 0 <= j < n ==> (#[trigger] placed@[j] <==> order@.contains(j as usize)),
            no_dups(order@),
            forall|i: int| 0 <= i < order@.len() ==> #[trigger] order@[i] < n,
            forall|i: int| 0 <= i < order@.len() ==> #[trigger] kahn_choice(n, ps, blocked@, ranks@, order@, i),
            !go ==> forall|k: usize| k < n && !order@.contains(k) ==> !ready_at(ps, blocked@, order@, k),
        decreases (n - order@.len()) + (if go { 1int } else { 0int }),
    {
        let mut best: usize = n;
        let mut k: usize = 0;
        while k < n
            invariant
                topo_input_wf(n, ps, blocked@, ranks@),
                ps == pre@.map_values(|v: Vec<usize>| v@),
                pre@.len() == n,
                placed@.len() == n,
                k <= n,
                forall|j: int| 0 <= j < n ==> (#[trigger] placed@[j] <==> order@.contains(j as usize)),
                best == n ==> forall|j: usize| j < k && !order@.contains(j) ==> !ready_at(ps, blocked@, order@, j),
                best < n ==> {
                    &&& best < k
                    &&& !order@.contains(best)
                    &&& ready_at(ps, blocked@, order@, best)
                    &&& forall|j: usize| j < k && !order@.contains(j) && ready_at(ps, blocked@, order@, j)
                        ==> better(ranks@, best, j)
                },
                best <= n,
            decreases n - k,
        {
            proof {
                assert(ps[k as int] == pre@[k as int]@);
                assert forall|q: int| 0 <= q < pre@[k as int]@.len() implies #[trigger] pre@[k as int]@[q] < placed@.len() by {
                    assert(pre@[k as int]@[q] == ps[k as int][q]);
                }
            }
            if !placed[k] && is_ready(pre, blocked, &placed, k, Ghost(order@)) {
                if best == n {
                    best = k;
                } else {
                    let a = ranks[k];
                    let b = ranks[best];
                    if a.0 < b.0 || (a.0 == b.0 && (a.1 < b.1 || (a.1 == b.1 && a.2 < b.2))) {
                        best = k;
                    }
                }
            }
            k = k + 1;
        }
        if best == n {
            go = false;
        } else {
            let ghost before = order@;
            placed.set(best, true);
            order.push(best);
            proof {
                lemma_take_push(before, best);
                assert forall|j: int| 0 <= j < n implies (#[trigger] placed@[j] <==> order@.contains(j as usize)) by {
                    if j == best {
                        assert(order@[before.len() as int] == best);
                    } else {
                        if order@.contains(j as usize) {
                            let w = choose|w: int| 0 <= w < order@.len() && order@[w] == j as usize;
                            assert(w < before.len());
                            assert(before[w] == j as usize);
                        }
                        if before.contains(j as usize) {
                            let w = choose|w: int| 0 <= w < before.len() && before[w] == j as usize;
                            assert(order@[w] == j as usize);
                        }
                    }
                }
                assert forall|i: int| 0 <= i < order@.len() implies #[trigger] kahn_choice(n, ps, blocked@, ranks@, order@, i) by {
                    if i < before.len() {
                        assert(kahn_choice(n, ps, blocked@, ranks@, before, i));
                        assert(order@[i] == before[i]);
                    } else {
                        assert(order@.take(i) == before);
                    }
                }
                assert(no_dups(order@)) by {
                    assert forall|a: int, b: int| 0 <= a < order@.len() && 0 <= b < order@.len() && a != b implies order@[a] != order@[b] by {
                        if a == before.len() {
                            assert(!before.contains(best));
                            assert(order@[b] == before[b]);
                        } else if b == before.len() {
                            assert(!before.contains(best));
                            assert(order@[a] == before[a]);
                        } else {
                            assert(order@[a] == before[a] && order@[b] == before[b]);
                        }
                    }
                }
            }
        }
    }
    let m = order.len();
    let ghost kahn = order@;
    proof {
        assert(kahn.take(m as int) =~= kahn);
        if go {
            assert forall|k: usize| k < n && !kahn.contains(k) implies !ready_at(ps, blocked@, kahn, k) by {
                let t = kahn.push(k);
                assert(no_dups(t)) by {
                    assert forall|a: int, b: int| 0 <= a < t.len() && 0 <= b < t.len() && a != b implies t[a] != t[b] by {
                        if a == kahn.len() {
                            assert(t[b] == kahn[b]);
                        } else if b == kahn.len() {
                            assert(t[a] == kahn[a]);
                        } else {
                            assert(t[a] == kahn[a] && t[b] == kahn[b]);
                        }
                    }
                }
                assert forall|i: int| 0 <= i < t.len() implies #[trigger] t[i] < n by {
                    if i < kahn.len() {
                        assert(t[i] == kahn[i]);
                    }
                }
                lemma_distinct_bound(t, n);
            }
        }
    }
    // Fallback: the remaining nodes, best rank first.
    while order.len() < n
        invariant
            topo_input_wf(n, ps, blocked@, ranks@),
            ps == pre@.map_values(|v: Vec<usize>| v@),
            placed@.len() == n,
            m <= order@.len() <= n,
            order@.take(m as int) == kahn,
            kahn.len() == m,
            forall|j: int| 0 <= j < n ==> (#[trigger] placed@[j] <==> order@.contains(j as usize)),
            no_dups(order@),
            forall|i: int| 0 <= i < order@.len() ==> #[trigger] order@[i] < n,
            forall|i: int| 0 <= i < m ==> #[trigger] kahn_choice(n, ps, blocked@, ranks@, order@, i),
            forall|k: usize| k < n && !kahn.contains(k) ==> !ready_at(ps, blocked@, kahn, k),
            forall|i: int| m <= i < order@.len() ==> #[trigger] rank_choice(n, ranks@, order@, i),
        decreases n - order@.len(),
    {
        proof {
            lemma_missing_node(order@, n);
        }
        let mut best: usize = n;
        let mut k: usize = 0;
        while k < n
            invariant
                placed@.len() == n,
                ranks@.len() == n,
                k <= n,
                forall|j: int| 0 <= j < n ==> (#[trigger] placed@[j] <==> order@.contains(j as usize)),
                exists|j: usize| j < n && !order@.contains(j),
                best == n ==> forall|j: usize| j < k ==> order@.contains(j),
                best < n ==> {
                    &&& best < k
                    &&& !order@.contains(best)
                    &&& forall|j: usize| j < k && !order@.contains(j) ==> better(ranks@, best, j)
                },
                best <= n,
            decreases n - k,
        {
            assert(placed@[k as int] <==> order@.contains(k));
            if !placed[k] {
                if best == n {
                    best = k;
                } else {
                    let a = ranks[k];
                    let b = ranks[best];
                    if a.0 < b.0 || (a.0 == b.0 && (a.1 < b.1 || (a.1 == b.1 && a.2 < b.2))) {
                        best = k;
                    }
                }
            }
            k = k + 1;
        }
        proof {
            if best == n {
                let j = choose|j: usize| j < n && !order@.contains(j);
                assert(false);
            }
        }
        let ghost before = order@;
        placed.set(best, true);
        order.push(best);
        proof {
            lemma_take_push(before, best);
            assert(order@.take(m as int) == before.take(m as int));
            assert forall|j: int| 0 <= j < n implies (#[trigger] placed@[j] <==> order@.contains(j as usize)) by {
                if j == best {
                    assert(order@[before.len() as int] == best);
                } else {
                    if order@.contains(j as usize) {
                        let w = choose|w: int| 0 <= w < order@.len() && order@[w] == j as usize;
                        assert(w < before.len());
                        assert(before[w] == j as usize);
                    }
                    if before.contains(j as usize) {
                        let w = choose|w: int| 0 <= w < before.len() && before[w] == j as usize;
                        assert(order@[w] == j as usize);
                    }
                }
            }
            assert forall|i: int| 0 <= i < m implies #[trigger] kahn_choice(n, ps, blocked@, ranks@, order@, i) by {
                assert(kahn_choice(n, ps, blocked@, ranks@, before, i));
                assert(order@[i] == before[i]);
            }
            assert forall|i: int| m <= i < order@.len() implies #[trigger] rank_choice(n, ranks@, order@, i) by {
                if i < before.len() {
                    assert(rank_choice(n, ranks@, before, i));
                    assert(order@[i] == before[i]);
                } else {
                    assert(order@.take(i) == before);
                }
            }
            assert(no_dups(order@)) by {
                assert forall|a: int, b: int| 0 <= a < order@.len() && 0 <= b < order@.len() && a != b implies order@[a] != order@[b] by {
                    if a == before.len() {
                        assert(order@[b] == before[b]);
                    } else if b == before.len() {
                        assert(order@[a] == before[a]);
                    } else {
                        assert(order@[a] == before[a] && order@[b] == before[b]);
                    }
                }
            }
        }
    }
    (order, m)
}


/// Nodes ranked by a depth that strictly drops along every prerequisite: the prerequisite
/// relation has no cycle.
pub open spec fn acyclic_by(n: usize, pre: Seq<Seq<usize>>, depth: Seq<nat>) -> bool {
    &&& depth.len() == n
    &&& forall|k: int, q: int|
        0 <= k < n && 0 <= q < pre[k].len() ==> depth[#[trigger] pre[k][q] as int] < depth[k]
}

proof fn lemma_some_ready(
    n: usize,
    pre: Seq<Seq<usize>>,
    blocked: Seq<bool>,
    ranks: Seq<Rank>,
    depth: Seq<nat>,
    done: Seq<usize>,
    k: usize,
)
    requires
        topo_input_wf(n, pre, blocked, ranks),
        acyclic_by(n, pre, depth),
        forall|j: int| 0 <= j < n ==> !blocked[j],
        k < n,
        !done.contains(k),
    ensures
        exists|j: usize| j < n && !done.contains(j) && ready_at(pre, blocked, done, j),
    decreases depth[k as int],
{
    if ready_at(pre, blocked, done, k) {
    } else {
        let q = choose|q: int| 0 <= q < pre[k as int].len() && !done.contains(#[trigger] pre[k as int][q]);
        let j = pre[k as int][q];
        assert(depth[j as int] < depth[k as int]);
        lemma_some_ready(n, pre, blocked, ranks, depth, done, j);
    }
}

/// Each node placed in the Kahn phase comes after all of its prerequisites: every
/// prerequisite of the node at position `i` is among the first `i` nodes.
pub proof fn law_kahn_after_prerequisites(
    n: usize,
    pre: Seq<Seq<usize>>,
    blocked: Seq<bool>,
    ranks: Seq<Rank>,
    order: Seq<usize>,
    m: int,
)
    requires
        greedy_topo_order(n, pre, blocked, ranks, order, m),
    ensures
        forall|i: int, q: int|
            0 <= i < m && 0 <= q < pre[order[i] as int].len() ==> order.take(i).contains(
                #[trigger] pre[order[i] as int][q],
            ),
{
    assert forall|i: int, q: int| 0 <= i < m && 0 <= q < pre[order[i] as int].len() implies order.take(
        i,
    ).contains(#[trigger] pre[order[i] as int][q]) by {
        assert(kahn_choice(n, pre, blocked, ranks, order, i));
    }
}

/// With no prerequisite cycle and no missing prerequisite, the Kahn phase places every node:
/// the whole order respects every prerequisite.
pub proof fn law_acyclic_completes(
    n: usize,
    pre: Seq<Seq<usize>>,
    blocked: Seq<bool>,
    ranks: Seq<Rank>,
    depth: Seq<nat>,
    order: Seq<usize>,
    m: int,
)
    requires
        topo_input_wf(n, pre, blocked, ranks),
        greedy_topo_order(n, pre, blocked, ranks, order, m),
        acyclic_by(n, pre, depth),
        forall|j: int| 0 <= j < n ==> !blocked[j],
    ensures
        m == n,
{
    if m < n {
        let done = order.take(m);
        assert(no_dups(done)) by {
            assert forall|a: int, b: int| 0 <= a < done.len() && 0 <= b < done.len() && a != b implies done[a] != done[b] by {
                assert(done[a] == order[a] && done[b] == order[b]);
            }
        }
        assert forall|i: int| 0 <= i < done.len() implies #[trigger] done[i] < n by {
            assert(done[i] == order[i]);
        }
        lemma_missing_node(done, n);
        let k = choose|k: usize| k < n && !done.contains(k);
        lemma_some_ready(n, pre, blocked, ranks, depth, done, k);
        let j = choose|j: usize| j < n && !done.contains(j) && ready_at(pre, blocked, done, j);
        assert(false);
    }
}

} // verus!
