//! Insertion into a sorted vector, and reachability in a directed graph.
use vstd::prelude::*;

verus! {

/// `s` is in non-decreasing order.
pub open spec fn is_sorted(s: Seq<i32>) -> bool {
    forall|i: int, j: int| 0 <= i <= j < s.len() ==> s[i] <= s[j]
}

/// A position at which `n` can be inserted into sorted `v` so that it stays
/// sorted: every element before it is at most `n`, every one after at least.
fn binary_search(v: &Vec<i32>, n: i32) -> (r: usize)
    requires
        is_sorted(v@),
    ensures
        r <= v@.len(),
        forall|k: int| 0 <= k < r ==> v@[k] <= n,
        forall|k: int| r <= k < v@.len() ==> v@[k] >= n,
{
    let mut start: usize = 0;
    let mut end: usize = v.len();
    while start < end
        invariant
            is_sorted(v@),
            start <= end <= v@.len(),
            forall|k: int| 0 <= k < start ==> v@[k] <= n,
            forall|k: int| end <= k < v@.len() ==> v@[k] >= n,
        decreases end - start,
    {
        let mid: usize = start + (end - start) / 2;
        let mid_value = v[mid];
        if mid_value == n {
            return mid;
        } else if mid_value < n {
            start = mid + 1;
        } else {
            end = mid;
        }
    }
    start
}

/// Inserts `n` into sorted `v`, keeping it sorted.
pub fn insort(v: &mut Vec<i32>, n: i32)
    requires
        is_sorted(old(v)@),
    ensures
        is_sorted(final(v)@),
        exists|i: int| 0 <= i <= old(v)@.len() && final(v)@ == old(v)@.insert(i, n),
{
    let insertion_index = binary_search(v, n);
    v.insert(insertion_index, n);
    assert(v@ == old(v)@.insert(insertion_index as int, n));
}


/// `edges` holds the directed edge from `a` to `b`.
pub open spec fn has_edge(edges: Seq<(usize, usize)>, a: usize, b: usize) -> bool {
    exists|j: int| 0 <= j < edges.len() && edges[j] == (a, b)
}

/// Each node of `p` is joined to the next by an edge.
pub open spec fn is_walk(edges: Seq<(usize, usize)>, p: Seq<usize>) -> bool {
    forall|i: int| 0 <= i < p.len() - 1 ==> #[trigger] has_edge(edges, p[i], p[i + 1])
}

/// A walk of one or more edges leads from `src` to `dst`.
pub open spec fn reaches(edges: Seq<(usize, usize)>, src: usize, dst: usize) -> bool {
    exists|p: Seq<usize>| p.len() >= 2 && p[0] == src && p.last() == dst && #[trigger] is_walk(edges, p)
}

/// `x` is the target of an edge marked in `marked`.
spec fn is_marked_target(edges: Seq<(usize, usize)>, marked: Seq<bool>, x: usize) -> bool {
    exists|k: int| 0 <= k < edges.len() && #[trigger] marked[k] && edges[k].1 == x
}

/// Every edge that leaves `src` or a marked target is marked.
spec fn is_closed(edges: Seq<(usize, usize)>, marked: Seq<bool>, src: usize) -> bool {
    forall|k: int|
        0 <= k < edges.len() && (#[trigger] edges[k].0 == src || is_marked_target(edges, marked, edges[k].0))
            ==> marked[k]
}

/// Every marked edge leads to a node that `src` reaches.
spec fn is_sound(edges: Seq<(usize, usize)>, marked: Seq<bool>, src: usize) -> bool {
    forall|k: int| 0 <= k < edges.len() && #[trigger] marked[k] ==> reaches(edges, src, edges[k].1)
}

/// The number of entries of `m` that are unset.
spec fn count_unset(m: Seq<bool>) -> nat
    decreases m.len(),
{
    if m.len() == 0 {
        0
    } else {
        count_unset(m.drop_last()) + if m.last() {
            0nat
        } else {
            1nat
        }
    }
}

proof fn lemma_count_unset_set(m: Seq<bool>, j: int)
    requires
        0 <= j < m.len(),
        !m[j],
    ensures
        count_unset(m.update(j, true)) + 1 == count_unset(m),
    decreases m.len(),
{
    let u = m.update(j, true);
    if j < m.len() - 1 {
        lemma_count_unset_set(m.drop_last(), j);
        assert(u.drop_last() =~= m.drop_last().update(j, true));
    } else {
        assert(u.drop_last() =~= m.drop_last());
    }
}

proof fn lemma_reaches_step(edges: Seq<(usize, usize)>, src: usize, a: usize, b: usize)
    requires
        a == src || reaches(edges, src, a),
        has_edge(edges, a, b),
    ensures
        reaches(edges, src, b),
{
    if a == src {
        let p = seq![src, b];
        assert(has_edge(edges, p[0], p[1]));
        assert(is_walk(edges, p));
    } else {
        let p = choose|p: Seq<usize>| p.len() >= 2 && p[0] == src && p.last() == a && #[trigger] is_walk(edges, p);
        let q = p.push(b);
        assert forall|i: int| 0 <= i < q.len() - 1 implies #[trigger] has_edge(edges, q[i], q[i + 1]) by {
            if i < p.len() - 1 {
                assert(has_edge(edges, p[i], p[i + 1]));
            }
        }
        assert(is_walk(edges, q));
    }
}

/// In a closed marking, every node after the first on a walk from `src` is
/// a marked target.
proof fn lemma_walk_marked(edges: Seq<(usize, usize)>, marked: Seq<bool>, src: usize, p: Seq<usize>, i: int)
    requires
        marked.len() == edges.len(),
        is_closed(edges, marked, src),
        p.len() >= 2,
        p[0] == src,
        is_walk(edges, p),
        1 <= i < p.len(),
    ensures
        is_marked_target(edges, marked, p[i]),
    decreases i,
{
    if i > 1 {
        lemma_walk_marked(edges, marked, src, p, i - 1);
    }
    let h = i - 1;
    assert(has_edge(edges, p[h], p[h + 1]));
    assert(h + 1 == i);
    let j = choose|j: int| 0 <= j < edges.len() && edges[j] == (p[i - 1], p[i]);
    assert(edges[j].0 == src || is_marked_target(edges, marked, edges[j].0));
    assert(marked[j]);
}

/// In a closed marking, every node that `src` reaches is a marked target.
proof fn lemma_closed_complete(edges: Seq<(usize, usize)>, marked: Seq<bool>, src: usize, dst: usize)
    requires
        marked.len() == edges.len(),
        is_closed(edges, marked, src),
        reaches(edges, src, dst),
    ensures
        is_marked_target(edges, marked, dst),
{
    let p = choose|p: Seq<usize>| p.len() >= 2 && p[0] == src && p.last() == dst && #[trigger] is_walk(edges, p);
    lemma_walk_marked(edges, marked, src, p, p.len() - 1);
}

/// Whether `x` is the target of an edge marked in `marked`.
fn marked_target(edges: &[(usize, usize)], marked: &Vec<bool>, x: usize) -> (r: bool)
    requires
        marked@.len() == edges@.len(),
    ensures
        r == is_marked_target(edges@, marked@, x),
{
    let mut k: usize = 0;
    while k < edges.len()
        invariant
            marked@.len() == edges@.len(),
            k <= edges@.len(),
            forall|t: int| 0 <= t < k ==> !(#[trigger] marked@[t] && edges@[t].1 == x),
        decreases edges@.len() - k,
    {
        if marked[k] && edges[k].1 == x {
            return true;
        }
        k = k + 1;
    }
    false
}

/// Whether a walk of one or more edges leads from `src` to `dst` in the
/// directed graph `edges`, whose nodes are told apart by their identifiers.
pub fn connected(edges: &[(usize, usize)], src: usize, dst: usize) -> (r: bool)
    ensures
        r == reaches(edges@, src, dst),
{
    let n = edges.len();
    let mut marked: Vec<bool> = Vec::new();
    let mut k: usize = 0;
    while k < n
        invariant
            n == edges@.len(),
            k <= n,
            marked@.len() == k,
            forall|t: int| 0 <= t < k ==> !#[trigger] marked@[t],
        decreases n - k,
    {
        marked.push(false);
        k = k + 1;
    }
    let mut changed = true;
    while changed
        invariant
            n == edges@.len(),
            marked@.len() == n,
            is_sound(edges@, marked@, src),
            !changed ==> is_closed(edges@, marked@, src),
        decreases count_unset(marked@) + if changed {
            1nat
        } else {
            0nat
        },
    {
        changed = false;
        let ghost before = marked@;
        let mut j: usize = 0;
        while j < n
            invariant
                n == edges@.len(),
                marked@.len() == n,
                before.len() == n,
                j <= n,
                is_sound(edges@, marked@, src),
                !changed ==> marked@ == before,
                changed ==> count_unset(marked@) < count_unset(before),
                !changed ==> forall|t: int|
                    0 <= t < j && (#[trigger] edges@[t].0 == src || is_marked_target(edges@, marked@, edges@[t].0))
                        ==> marked@[t],
            decreases n - j,
        {
            if !marked[j] {
                let a = edges[j].0;
                if a == src || marked_target(edges, &marked, a) {
                    proof {
                        assert(has_edge(edges@, a, edges@[j as int].1));
                        if a != src {
                            let k = choose|k: int| 0 <= k < edges@.len() && #[trigger] marked@[k] && edges@[k].1 == a;
                            assert(reaches(edges@, src, edges@[k].1));
                        }
                        lemma_reaches_step(edges@, src, a, edges@[j as int].1);
                        lemma_count_unset_set(marked@, j as int);
                    }
                    let ghost prev = marked@;
                    marked.set(j, true);
                    proof {
                        assert forall|t: int| 0 <= t < n && #[trigger] marked@[t] implies reaches(edges@, src, edges@[t].1) by {
                            if t != j {
                                assert(prev[t]);
                            }
                        }
                    }
                    changed = true;
                }
            }
            j = j + 1;
        }
    }
    proof {
        if reaches(edges@, src, dst) {
            lemma_closed_complete(edges@, marked@, src, dst);
        }
    }
    let found = marked_target(edges, &marked, dst);
    proof {
        if found {
            let k = choose|k: int| 0 <= k < edges@.len() && #[trigger] marked@[k] && edges@[k].1 == dst;
            assert(reaches(edges@, src, edges@[k].1));
        }
    }
    found
}

} // verus!
