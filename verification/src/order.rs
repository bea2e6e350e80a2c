//! Stable ordering of index lists by a key, as a plain mathematical definition (insertion into
//! an already-sorted prefix) with the executable sort that computes it.

use vstd::prelude::*;

verus! {

/// A two-part sort key compared lexicographically (a rank and a tie-breaker, or seconds and
/// nanoseconds).
pub open spec fn pair_le(a: (i128, u64), b: (i128, u64)) -> bool {
    a.0 < b.0 || (a.0 == b.0 && a.1 <= b.1)
}

/// Index `a` sorts at or before index `b` under `keys`.
pub open spec fn idx_le(keys: Seq<(i128, u64)>, a: usize, b: usize) -> bool {
    pair_le(keys[a as int], keys[b as int])
}

/// Insert `x` into the sorted list `s` after every element whose key is at most `x`'s.
pub open spec fn insert_sorted(s: Seq<usize>, x: usize, keys: Seq<(i128, u64)>) -> Seq<usize>
    decreases s.len(),
{
    if s.len() == 0 {
        seq![x]
    } else if idx_le(keys, s.last(), x) {
        s.push(x)
    } else {
        insert_sorted(s.drop_last(), x, keys).push(s.last())
    }
}

/// `s` sorted by key, equal keys keeping their order in `s` (a stable sort).
pub open spec fn sorted_stable(s: Seq<usize>, keys: Seq<(i128, u64)>) -> Seq<usize>
    decreases s.len(),
{
    if s.len() == 0 {
        s
    } else {
        insert_sorted(sorted_stable(s.drop_last(), keys), s.last(), keys)
    }
}

/// Inserting into a sorted list where `x` belongs at position `j`.
proof fn lemma_insert_at(s: Seq<usize>, x: usize, keys: Seq<(i128, u64)>, j: int)
    requires
        0 <= j <= s.len(),
        j == 0 || idx_le(keys, s[j - 1], x),
        forall|k: int| j <= k < s.len() ==> !idx_le(keys, #[trigger] s[k], x),
    ensures
        insert_sorted(s, x, keys) == s.subrange(0, j) + seq![x] + s.subrange(j, s.len() as int),
    decreases s.len(),
{
    if s.len() == 0 {
        assert(s.subrange(0, 0) + seq![x] + s.subrange(0, 0) =~= seq![x]);
    } else if j == s.len() {
        assert(s.subrange(0, j) + seq![x] + s.subrange(j, s.len() as int) =~= s.push(x));
    } else {
        let t = s.drop_last();
        assert(!idx_le(keys, s[s.len() - 1], x));
        lemma_insert_at(t, x, keys, j);
        assert(s.subrange(0, j) + seq![x] + s.subrange(j, s.len() as int) =~= (t.subrange(0, j)
            + seq![x] + t.subrange(j, t.len() as int)).push(s.last()));
    }
}

/// Insertion adds exactly `x` to the list.
pub proof fn lemma_insert_elems(s: Seq<usize>, x: usize, keys: Seq<(i128, u64)>)
    ensures
        insert_sorted(s, x, keys).len() == s.len() + 1,
        insert_sorted(s, x, keys).to_multiset() == s.to_multiset().insert(x),
    decreases s.len(),
{
    broadcast use vstd::seq_lib::group_to_multiset_ensures;

    if s.len() == 0 {
        assert(seq![x] == Seq::<usize>::empty().push(x));
    } else if idx_le(keys, s.last(), x) {
    } else {
        let t = s.drop_last();
        lemma_insert_elems(t, x, keys);
        assert(s == t.push(s.last()));
        assert(insert_sorted(t, x, keys).push(s.last()).to_multiset() == insert_sorted(
            t,
            x,
            keys,
        ).to_multiset().insert(s.last()));
        assert(t.to_multiset().insert(x).insert(s.last()) =~= t.to_multiset().insert(
            s.last(),
        ).insert(x));
    }
}

/// Sorting keeps exactly the same elements (with their multiplicities).
pub proof fn lemma_sorted_elems(s: Seq<usize>, keys: Seq<(i128, u64)>)
    ensures
        sorted_stable(s, keys).len() == s.len(),
        sorted_stable(s, keys).to_multiset() == s.to_multiset(),
    decreases s.len(),
{
    broadcast use vstd::seq_lib::group_to_multiset_ensures;

    if s.len() > 0 {
        let t = s.drop_last();
        lemma_sorted_elems(t, keys);
        lemma_insert_elems(sorted_stable(t, keys), s.last(), keys);
        assert(s == t.push(s.last()));
    }
}

/// Every element of the sorted list comes from the input list.
pub proof fn lemma_sorted_contains(s: Seq<usize>, keys: Seq<(i128, u64)>, k: int)
    requires
        0 <= k < sorted_stable(s, keys).len(),
    ensures
        s.contains(sorted_stable(s, keys)[k]),
{
    broadcast use vstd::seq_lib::group_to_multiset_ensures;

    lemma_sorted_elems(s, keys);
    let v = sorted_stable(s, keys)[k];
    assert(sorted_stable(s, keys).contains(v));
    assert(sorted_stable(s, keys).to_multiset().count(v) > 0);
}

/// Sort `items` (indices into `keys`) stably by key.
pub fn stable_sort_indices(items: &Vec<usize>, keys: &Vec<(i128, u64)>) -> (out: Vec<usize>)
    requires
        forall|i: int| 0 <= i < items@.len() ==> (#[trigger] items@[i]) < keys@.len(),
    ensures
        out@ == sorted_stable(items@, keys@),
{
    let mut out: Vec<usize> = Vec::new();
    let mut i: usize = 0;
    while i < items.len()
        invariant
            i <= items.len(),
            forall|k: int| 0 <= k < items@.len() ==> (#[trigger] items@[k]) < keys@.len(),
            out@ == sorted_stable(items@.subrange(0, i as int), keys@),
        decreases items.len() - i,
    {
        let x = items[i];
        let ghost pre = out@;
        let m = out.len();
        out.push(x);
        let mut j: usize = m;
        proof {
            let sub = items@.subrange(0, i as int);
            lemma_sorted_elems(sub, keys@);
            assert forall|k: int| 0 <= k < pre.len() implies (#[trigger] pre[k]) < keys@.len() by {
                lemma_sorted_contains(sub, keys@, k);
                let w = choose|w: int| 0 <= w < sub.len() && sub[w] == pre[k];
                assert(sub[w] == items@[w]);
            }
        }
        while j > 0 && !(keys[out[j - 1]].0 < keys[x].0 || (keys[out[j - 1]].0 == keys[x].0
            && keys[out[j - 1]].1 <= keys[x].1))
            invariant
                j <= m,
                m == pre.len(),
                x < keys@.len(),
                forall|k: int| 0 <= k < pre.len() ==> (#[trigger] pre[k]) < keys@.len(),
                out@ == pre.subrange(0, j as int) + seq![x] + pre.subrange(j as int, m as int),
                forall|k: int| j <= k < m ==> !idx_le(keys@, #[trigger] pre[k], x),
            decreases j,
        {
            assert(out@[j - 1] == pre[j - 1]);
            assert(out@[j as int] == x);
            let prev = out[j - 1];
            out.set(j - 1, x);
            out.set(j, prev);
            proof {
                assert(out@ =~= pre.subrange(0, j - 1) + seq![x] + pre.subrange(j - 1, m as int));
            }
            j = j - 1;
        }
        proof {
            if j > 0 {
                assert(out@[j - 1] == pre[j - 1]);
            }
            lemma_insert_at(pre, x, keys@, j as int);
            let s1 = items@.subrange(0, i + 1);
            assert(s1.drop_last() =~= items@.subrange(0, i as int));
            assert(s1.last() == x);
        }
        i = i + 1;
    }
    assert(items@.subrange(0, items@.len() as int) =~= items@);
    out
}


/// `s` is in key order.
pub open spec fn is_sorted_by(s: Seq<usize>, keys: Seq<(i128, u64)>) -> bool {
    forall|i: int, j: int| 0 <= i < j < s.len() ==> idx_le(keys, #[trigger] s[i], #[trigger] s[j])
}

proof fn lemma_insert_sorted_sorted(s: Seq<usize>, x: usize, keys: Seq<(i128, u64)>)
    requires
        is_sorted_by(s, keys),
    ensures
        is_sorted_by(insert_sorted(s, x, keys), keys),
        forall|k: int|
            0 <= k < insert_sorted(s, x, keys).len() ==> (#[trigger] insert_sorted(s, x, keys)[k] == x
                || s.contains(insert_sorted(s, x, keys)[k])),
    decreases s.len(),
{
    if s.len() == 0 {
    } else if idx_le(keys, s.last(), x) {
        let r = s.push(x);
        assert forall|k: int| 0 <= k < r.len() implies (#[trigger] r[k] == x || s.contains(r[k])) by {
            if k < s.len() {
                assert(r[k] == s[k]);
            }
        }
    } else {
        let t = s.drop_last();
        assert(is_sorted_by(t, keys)) by {
            assert forall|i: int, j: int| 0 <= i < j < t.len() implies idx_le(keys, #[trigger] t[i], #[trigger] t[j]) by {
                assert(t[i] == s[i] && t[j] == s[j]);
            }
        }
        lemma_insert_sorted_sorted(t, x, keys);
        let u = insert_sorted(t, x, keys);
        let r = u.push(s.last());
        assert forall|i: int, j: int| 0 <= i < j < r.len() implies idx_le(keys, #[trigger] r[i], #[trigger] r[j]) by {
            if j == r.len() - 1 {
                if u[i] == x {
                } else {
                    let w = choose|w: int| 0 <= w < t.len() && t[w] == u[i];
                    assert(s[w] == t[w]);
                    assert(idx_le(keys, s[w], s[s.len() - 1]));
                }
            } else {
                assert(r[i] == u[i] && r[j] == u[j]);
            }
        }
        assert forall|k: int| 0 <= k < r.len() implies (#[trigger] r[k] == x || s.contains(r[k])) by {
            if k == r.len() - 1 {
                assert(s[s.len() - 1] == r[k]);
            } else {
                assert(r[k] == u[k]);
                if u[k] != x {
                    let w = choose|w: int| 0 <= w < t.len() && t[w] == u[k];
                    assert(s[w] == t[w]);
                }
            }
        }
    }
}

/// The stable sort puts its list in key order.
pub proof fn lemma_sorted_stable_sorted(s: Seq<usize>, keys: Seq<(i128, u64)>)
    ensures
        is_sorted_by(sorted_stable(s, keys), keys),
    decreases s.len(),
{
    if s.len() > 0 {
        lemma_sorted_stable_sorted(s.drop_last(), keys);
        lemma_insert_sorted_sorted(sorted_stable(s.drop_last(), keys), s.last(), keys);
    }
}

} // verus!
