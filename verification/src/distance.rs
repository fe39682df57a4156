//! Hop distances in the graph of layout springs: the double-sweep estimate
//! of its diameter that scales one level of a multilevel layout against the
//! next.

use std::collections::VecDeque;
use vstd::prelude::*;

use crate::drawing::adjacent;
use crate::drawing::is_path;
use crate::drawing::linked;

verus! {

/// A path of at most `k` springs leads from `u` to `v`.
pub open spec fn within_hops(springs: Seq<(usize, usize)>, u: int, v: int, k: int) -> bool {
    exists|p: Seq<int>| #[trigger] is_path(springs, p) && p[0] == u && p.last() == v && p.len() <= k + 1
}

/// `v` lies exactly `k` springs away from `u`.
pub open spec fn hop_distance(springs: Seq<(usize, usize)>, u: int, v: int, k: int) -> bool {
    within_hops(springs, u, v, k) && !within_hops(springs, u, v, k - 1)
}

/// `d` is the largest distance from `u` to a vertex that a path from `u`
/// reaches.
pub open spec fn eccentricity(springs: Seq<(usize, usize)>, u: int, d: int) -> bool {
    &&& exists|v: int| #[trigger] hop_distance(springs, u, v, d)
    &&& forall|v: int| #[trigger] linked(springs, u, v) ==> within_hops(springs, u, v, d)
}

/// The two sweeps of the estimate: `u` is a vertex farthest from vertex 0,
/// and `d` is the eccentricity of `u`.
pub open spec fn double_sweep(springs: Seq<(usize, usize)>, u: int, d: int) -> bool {
    &&& exists|d0: int| eccentricity(springs, 0, d0) && #[trigger] hop_distance(springs, 0, u, d0)
    &&& eccentricity(springs, u, d)
}

proof fn lemma_adjacent_take(springs: Seq<(usize, usize)>, k: int, u: int, w: int)
    requires
        0 <= k < springs.len(),
    ensures
        adjacent(springs.take(k + 1), u, w) <==> (adjacent(springs.take(k), u, w) || springs[k].0 == u && springs[k].1
            == w || springs[k].0 == w && springs[k].1 == u),
{
    let s1 = springs.take(k + 1);
    let s0 = springs.take(k);
    if adjacent(s1, u, w) {
        let j = choose|j: int|
            0 <= j < s1.len() && ((#[trigger] s1[j]).0 == u && s1[j].1 == w || s1[j].0 == w && s1[j].1 == u);
        if j < k {
            assert(s0[j] == s1[j]);
        }
    }
    if adjacent(s0, u, w) {
        let j = choose|j: int|
            0 <= j < s0.len() && ((#[trigger] s0[j]).0 == u && s0[j].1 == w || s0[j].0 == w && s0[j].1 == u);
        assert(s1[j] == s0[j]);
    }
    if springs[k].0 == u && springs[k].1 == w || springs[k].0 == w && springs[k].1 == u {
        assert(s1[k] == springs[k]);
    }
}

/// Distinct values below `n` number at most `n`.
proof fn lemma_distinct_below(s: Seq<usize>, n: int)
    requires
        0 <= n,
        s.no_duplicates(),
        forall|i: int| 0 <= i < s.len() ==> (#[trigger] s[i] as int) < n,
    ensures
        s.len() <= n,
    decreases n,
{
    if s.len() > 0 {
        assert((s[0] as int) < n);
        if exists|j: int| 0 <= j < s.len() && s[j] as int == n - 1 {
            let j = choose|j: int| 0 <= j < s.len() && s[j] as int == n - 1;
            let t = s.subrange(0, j) + s.subrange(j + 1, s.len() as int);
            assert forall|k: int| 0 <= k < t.len() implies #[trigger] t[k] == (if k < j { s[k] } else { s[k + 1] }) by {
            }
            assert forall|a: int, b: int| 0 <= a < t.len() && 0 <= b < t.len() && a != b implies t[a] != t[b] by {
                let ia = if a < j { a } else { a + 1 };
                let ib = if b < j { b } else { b + 1 };
                assert(t[a] == s[ia] && t[b] == s[ib]);
            }
            assert forall|k: int| 0 <= k < t.len() implies (#[trigger] t[k] as int) < n - 1 by {
                let ik = if k < j { k } else { k + 1 };
                assert(t[k] == s[ik]);
                assert(s[ik] != s[j]);
            }
            lemma_distinct_below(t, n - 1);
        } else {
            assert forall|k: int| 0 <= k < s.len() implies (#[trigger] s[k] as int) < n - 1 by {
                assert(s[k] as int != n - 1);
            }
            lemma_distinct_below(s, n - 1);
        }
    }
}

/// The contents of adjacency lists.
pub open spec fn adj_view(adj: Seq<Vec<usize>>) -> Seq<Seq<usize>> {
    adj.map_values(|v: Vec<usize>| v@)
}

/// The adjacency lists of `n` vertices built spring by spring: a spring
/// `(a, b)` appends `b` to the list of `a`, then `a` to the list of `b`.
pub open spec fn spring_adjacency(n: nat, springs: Seq<(usize, usize)>) -> Seq<Seq<usize>>
    decreases springs.len(),
{
    if springs.len() == 0 {
        Seq::new(n, |i: int| Seq::<usize>::empty())
    } else {
        let r = spring_adjacency(n, springs.drop_last());
        let a = springs.last().0 as int;
        let b = springs.last().1 as int;
        let r1 = r.update(a, r[a].push(springs.last().1));
        r1.update(b, r1[b].push(springs.last().0))
    }
}

proof fn lemma_spring_adjacency_len(n: nat, springs: Seq<(usize, usize)>)
    requires
        forall|j: int| 0 <= j < springs.len() ==> (#[trigger] springs[j]).0 < n && springs[j].1 < n,
    ensures
        spring_adjacency(n, springs).len() == n,
    decreases springs.len(),
{
    if springs.len() > 0 {
        lemma_spring_adjacency_len(n, springs.drop_last());
    }
}

/// For each vertex, the other ends of the springs at it, in spring order.
pub(crate) fn adjacency_lists(n: usize, springs: &[(usize, usize)]) -> (r: Vec<Vec<usize>>)
    requires
        forall|j: int| 0 <= j < springs.len() ==> (#[trigger] springs@[j]).0 < n && springs@[j].1 < n,
    ensures
        r.len() == n,
        adj_view(r@) == spring_adjacency(n as nat, springs@),
        forall|u: int, w: usize| 0 <= u < n ==> (#[trigger] r@[u]@.contains(w) <==> adjacent(springs@, u, w as int)),
        forall|u: int, t: int| 0 <= u < n && 0 <= t < r@[u].len() ==> #[trigger] r@[u]@[t] < n,
{
    let mut r: Vec<Vec<usize>> = Vec::new();
    let mut v: usize = 0;
    while v < n
        invariant
            v <= n,
            r.len() == v,
            forall|q: int| 0 <= q < v ==> (#[trigger] r@[q]).len() == 0,
        decreases n - v,
    {
        r.push(Vec::new());
        v = v + 1;
    }
    proof {
        assert(springs@.take(0) =~= Seq::<(usize, usize)>::empty());
        assert forall|q: int| 0 <= q < n implies adj_view(r@)[q] == spring_adjacency(n as nat, springs@.take(0))[q] by {
            assert(r@[q]@ =~= Seq::<usize>::empty());
        }
        assert(adj_view(r@) =~= spring_adjacency(n as nat, springs@.take(0)));
    }
    let mut k: usize = 0;
    while k < springs.len()
        invariant
            k <= springs.len(),
            r.len() == n,
            forall|j: int| 0 <= j < springs.len() ==> (#[trigger] springs@[j]).0 < n && springs@[j].1 < n,
            forall|u: int, w: usize|
                0 <= u < n ==> (#[trigger] r@[u]@.contains(w) <==> adjacent(springs@.take(k as int), u, w as int)),
            forall|u: int, t: int| 0 <= u < n && 0 <= t < r@[u].len() ==> #[trigger] r@[u]@[t] < n,
            adj_view(r@) == spring_adjacency(n as nat, springs@.take(k as int)),
        decreases springs.len() - k,
    {
        let (a, b) = springs[k];
        let ghost before = r@;
        r[a].push(b);
        r[b].push(a);
        proof {
            let pre = springs@.take(k as int);
            assert(springs@.take(k + 1).drop_last() =~= pre);
            assert(springs@.take(k + 1).last() == (a, b));
            assert forall|j: int| 0 <= j < pre.len() implies (#[trigger] pre[j]).0 < n && pre[j].1 < n by {
                assert(pre[j] == springs@[j]);
            }
            lemma_spring_adjacency_len(n as nat, pre);
            let sa = spring_adjacency(n as nat, pre);
            let r1 = sa.update(a as int, sa[a as int].push(b));
            assert(adj_view(r@) =~= r1.update(b as int, r1[b as int].push(a)));
            assert forall|u: int, w: usize| 0 <= u < n implies (#[trigger] r@[u]@.contains(w) <==> adjacent(
                springs@.take(k + 1),
                u,
                w as int,
            )) by {
                lemma_adjacent_take(springs@, k as int, u, w as int);
                if u == a && u == b {
                    assert(r@[u]@ == before[u]@.push(b).push(a));
                } else if u == a {
                    assert(r@[u]@ == before[u]@.push(b));
                } else if u == b {
                    assert(r@[u]@ == before[u]@.push(a));
                } else {
                    assert(r@[u] == before[u]);
                }
                if r@[u]@.contains(w) {
                    let t = choose|t: int| 0 <= t < r@[u]@.len() && r@[u]@[t] == w;
                    if t < before[u]@.len() {
                        assert(before[u]@[t] == w);
                    }
                }
                if before[u]@.contains(w) {
                    let t = choose|t: int| 0 <= t < before[u]@.len() && before[u]@[t] == w;
                    assert(r@[u]@[t] == w);
                }
                if springs@[k as int].0 == u && springs@[k as int].1 == w {
                    assert(r@[u]@[before[u]@.len() as int] == w);
                }
                if springs@[k as int].0 == w && springs@[k as int].1 == u {
                    assert(r@[u]@[r@[u]@.len() - 1] == w);
                }
            }
            assert forall|u: int, t: int| 0 <= u < n && 0 <= t < r@[u].len() implies #[trigger] r@[u]@[t] < n by {
                if u == a || u == b {
                    if t < before[u].len() {
                        assert(r@[u]@[t] == before[u]@[t]);
                    }
                } else {
                    assert(r@[u] == before[u]);
                }
            }
        }
        k = k + 1;
    }
    proof {
        assert(springs@.take(springs.len() as int) =~= springs@);
    }
    r
}

proof fn lemma_within_start(springs: Seq<(usize, usize)>, s: int)
    ensures
        within_hops(springs, s, s, 0),
{
    assert(is_path(springs, seq![s]));
}

proof fn lemma_within_step(springs: Seq<(usize, usize)>, s: int, u: int, w: int, k: int)
    requires
        within_hops(springs, s, u, k),
        adjacent(springs, u, w),
    ensures
        within_hops(springs, s, w, k + 1),
{
    let p = choose|p: Seq<int>| #[trigger] is_path(springs, p) && p[0] == s && p.last() == u && p.len() <= k + 1;
    let q = p.push(w);
    assert forall|i: int| 0 <= i < q.len() - 1 implies adjacent(springs, #[trigger] q[i], q[i + 1]) by {
        if i < p.len() - 1 {
            assert(q[i] == p[i] && q[i + 1] == p[i + 1]);
        } else {
            assert(q[i] == u && q[i + 1] == w);
        }
    }
    assert(is_path(springs, q));
}

pub(crate) proof fn lemma_within_more(springs: Seq<(usize, usize)>, s: int, v: int, k: int, m: int)
    requires
        within_hops(springs, s, v, k),
        k <= m,
    ensures
        within_hops(springs, s, v, m),
{
    let p = choose|p: Seq<int>| #[trigger] is_path(springs, p) && p[0] == s && p.last() == v && p.len() <= k + 1;
    assert(is_path(springs, p) && p[0] == s && p.last() == v && p.len() <= m + 1);
}

/// The state of a breadth-first search from `start` over the vertices
/// `0..n` that expands only vertices nearer than `limit`: `order` lists the
/// vertices found, in the order found, the first `head` of them taken up; a
/// vertex `x` is found exactly when `dist[x]` is not `usize::MAX`, and then
/// `dist[x]` is the length of a path to it, at most `limit`.
spec fn bfs_inv(
    springs: Seq<(usize, usize)>,
    n: int,
    start: int,
    limit: int,
    dist: Seq<usize>,
    order: Seq<usize>,
    head: int,
) -> bool {
    &&& bfs_order(n, start, dist, order, head)
    &&& bfs_reach(springs, n, start, limit, dist, order, head)
}

/// The bookkeeping of the search: what is found, in which order, and at
/// which distances.
spec fn bfs_order(n: int, start: int, dist: Seq<usize>, order: Seq<usize>, head: int) -> bool {
    &&& n < usize::MAX
    &&& dist.len() == n
    &&& 1 <= order.len() <= n
    &&& 0 <= head <= order.len()
    &&& order[0] == start
    &&& dist[start] == 0
    &&& order.no_duplicates()
    &&& forall|i: int|
        0 <= i < order.len() ==> (#[trigger] order[i]) < n && dist[order[i] as int] != usize::MAX && dist[order[i] as int]
            <= i
    &&& forall|x: int| 0 <= x < n && #[trigger] dist[x] != usize::MAX ==> exists|i: int| 0 <= i < order.len() && order[i] == x
    &&& forall|i: int, j: int|
        #![trigger order[i], order[j]]
        0 <= i <= j < order.len() ==> dist[order[i] as int] <= dist[order[j] as int]
    &&& head < order.len() ==> dist[order.last() as int] <= dist[order[head] as int] + 1
}

/// What the search has learned of paths: the vertices taken up nearer than
/// `limit` have all their neighbors found, and found vertices have paths of
/// their distance, at most `limit`.
spec fn bfs_reach(
    springs: Seq<(usize, usize)>,
    n: int,
    start: int,
    limit: int,
    dist: Seq<usize>,
    order: Seq<usize>,
    head: int,
) -> bool {
    &&& forall|j: int, w: int|
        0 <= j < head && dist[order[j] as int] < limit && #[trigger] adjacent(springs, order[j] as int, w) ==> 0 <= w < n
            && dist[w] != usize::MAX && dist[w] <= dist[order[j] as int] + 1
    &&& forall|x: int| 0 <= x < n && #[trigger] dist[x] != usize::MAX ==> within_hops(springs, start, x, dist[x] as int)
        && dist[x] <= limit
}

/// Once every found vertex is taken up, each vertex on a path from the start
/// is found, no farther than its position on the path, up to the limit (or
/// all along when the limit exceeds every distance).
proof fn lemma_bfs_lower(
    springs: Seq<(usize, usize)>,
    n: int,
    start: int,
    limit: int,
    dist: Seq<usize>,
    order: Seq<usize>,
    p: Seq<int>,
    i: int,
)
    requires
        bfs_inv(springs, n, start, limit, dist, order, order.len() as int),
        is_path(springs, p),
        p[0] == start,
        0 <= i < p.len(),
        i <= limit || n <= limit,
    ensures
        0 <= p[i] < n,
        dist[p[i]] != usize::MAX,
        dist[p[i]] <= i,
    decreases i,
{
    if i == 0 {
        assert(order[0] == start);
    } else {
        lemma_bfs_lower(springs, n, start, limit, dist, order, p, i - 1);
        let x = p[i - 1];
        assert(dist[x] != usize::MAX);
        let j = choose|j: int| 0 <= j < order.len() && order[j] == x;
        assert(dist[order[j] as int] <= j < n);
        assert(adjacent(springs, p[i - 1], p[i]));
        assert(adjacent(springs, order[j] as int, p[i]));
    }
}

/// An unfound vertex leaves room in `order`, and the next distance fits.
proof fn lemma_bfs_room(n: int, start: int, dist: Seq<usize>, order: Seq<usize>, head: int, w: int)
    requires
        bfs_order(n, start, dist, order, head),
        head < order.len(),
        0 <= w < n,
        dist[w] == usize::MAX,
    ensures
        order.len() + 1 <= n,
        dist[order[head] as int] + 1 <= order.len(),
{
    assert forall|i: int| 0 <= i < order.len() implies #[trigger] order[i] != w by {
        assert(dist[order[i] as int] != usize::MAX);
    }
    let o1 = order.push(w as usize);
    assert(o1.last() as int == w);
    assert forall|i: int| 0 <= i < o1.len() implies (#[trigger] o1[i] as int) < n by {
        if i < order.len() {
            assert(o1[i] == order[i]);
        }
    }
    assert(o1.no_duplicates()) by {
        assert forall|a: int, b: int| 0 <= a < o1.len() && 0 <= b < o1.len() && a != b implies o1[a] != o1[b] by {
            if a < order.len() {
                assert(o1[a] == order[a]);
            }
            if b < order.len() {
                assert(o1[b] == order[b]);
            }
        }
    }
    lemma_distinct_below(o1, n);
    assert(dist[order[head] as int] <= head);
}

/// Finding `w` from the vertex taken up keeps the search state.
proof fn lemma_bfs_found(
    springs: Seq<(usize, usize)>,
    n: int,
    start: int,
    limit: int,
    d0: Seq<usize>,
    o0: Seq<usize>,
    head: int,
    w: int,
    d1: Seq<usize>,
    o1: Seq<usize>,
)
    requires
        bfs_inv(springs, n, start, limit, d0, o0, head),
        head < o0.len(),
        o0.len() + 1 <= n,
        0 <= w < n,
        d0[w] == usize::MAX,
        adjacent(springs, o0[head] as int, w),
        d0[o0[head] as int] < limit,
        d0[o0[head] as int] + 1 <= o0.len(),
        d1 == d0.update(w, (d0[o0[head] as int] + 1) as usize),
        o1 == o0.push(w as usize),
    ensures
        bfs_inv(springs, n, start, limit, d1, o1, head),
{
    assert forall|i: int| 0 <= i < o0.len() implies #[trigger] o0[i] != w by {
        assert(d0[o0[i] as int] != usize::MAX);
    }
    lemma_bfs_found_order(n, start, d0, o0, head, w, d1, o1);
    lemma_bfs_found_reach(springs, n, start, limit, d0, o0, head, w, d1, o1);
}

#[verifier::rlimit(40)]
proof fn lemma_bfs_found_order(
    n: int,
    start: int,
    d0: Seq<usize>,
    o0: Seq<usize>,
    head: int,
    w: int,
    d1: Seq<usize>,
    o1: Seq<usize>,
)
    requires
        bfs_order(n, start, d0, o0, head),
        head < o0.len(),
        o0.len() + 1 <= n,
        0 <= w < n,
        d0[w] == usize::MAX,
        forall|i: int| 0 <= i < o0.len() ==> #[trigger] o0[i] != w,
        d0[o0[head] as int] + 1 <= o0.len(),
        d1 == d0.update(w, (d0[o0[head] as int] + 1) as usize),
        o1 == o0.push(w as usize),
    ensures
        bfs_order(n, start, d1, o1, head),
{
    assert(start != w);
    assert forall|i: int|
        0 <= i < o1.len() implies (#[trigger] o1[i]) < n && d1[o1[i] as int] != usize::MAX && d1[o1[i] as int] <= i by {
        if i < o0.len() {
            assert(o1[i] == o0[i]);
        }
    }
    assert forall|x: int| 0 <= x < n && #[trigger] d1[x] != usize::MAX implies exists|i: int|
        0 <= i < o1.len() && o1[i] == x by {
        if x == w {
            assert(o1[o0.len() as int] == x);
        } else {
            assert(d0[x] != usize::MAX);
            let i = choose|i: int| 0 <= i < o0.len() && o0[i] == x;
            assert(o1[i] == x);
        }
    }
    assert forall|i: int, j: int|
        #![trigger o1[i], o1[j]]
        0 <= i <= j < o1.len() implies d1[o1[i] as int] <= d1[o1[j] as int] by {
        if j < o0.len() {
            assert(o1[i] == o0[i] && o1[j] == o0[j]);
            assert(d0[o0[i] as int] <= d0[o0[j] as int]);
        } else if i < j {
            assert(o1[i] == o0[i]);
            assert(d0[o0[i] as int] <= d0[o0.last() as int]);
        }
    }
    assert(o1.no_duplicates()) by {
        assert forall|a: int, b: int| 0 <= a < o1.len() && 0 <= b < o1.len() && a != b implies o1[a] != o1[b] by {
            if a < o0.len() {
                assert(o1[a] == o0[a]);
            }
            if b < o0.len() {
                assert(o1[b] == o0[b]);
            }
        }
    }
    assert(o1.last() == w);
    assert(o1[head] == o0[head]);
    assert(o1[0] == start);
}

#[verifier::rlimit(40)]
proof fn lemma_bfs_found_reach(
    springs: Seq<(usize, usize)>,
    n: int,
    start: int,
    limit: int,
    d0: Seq<usize>,
    o0: Seq<usize>,
    head: int,
    w: int,
    d1: Seq<usize>,
    o1: Seq<usize>,
)
    requires
        bfs_order(n, start, d0, o0, head),
        bfs_reach(springs, n, start, limit, d0, o0, head),
        head < o0.len(),
        0 <= w < n,
        d0[w] == usize::MAX,
        forall|i: int| 0 <= i < o0.len() ==> #[trigger] o0[i] != w,
        adjacent(springs, o0[head] as int, w),
        d0[o0[head] as int] < limit,
        d0[o0[head] as int] + 1 <= o0.len() < usize::MAX,
        d1 == d0.update(w, (d0[o0[head] as int] + 1) as usize),
        o1 == o0.push(w as usize),
    ensures
        bfs_reach(springs, n, start, limit, d1, o1, head),
{
    let u = o0[head] as int;
    let du = d0[u];
    assert(u != w);
    assert forall|j: int, x: int|
        0 <= j < head && d1[o1[j] as int] < limit && #[trigger] adjacent(springs, o1[j] as int, x) implies 0 <= x < n
            && d1[x] != usize::MAX && d1[x] <= d1[o1[j] as int] + 1 by {
        assert(o1[j] == o0[j]);
        assert(adjacent(springs, o0[j] as int, x));
        assert(d0[x] != usize::MAX);
    }
    lemma_within_step(springs, start, u, w, du as int);
    assert forall|x: int| 0 <= x < n && #[trigger] d1[x] != usize::MAX implies within_hops(springs, start, x, d1[x] as int)
        && d1[x] <= limit by {
        if x != w {
            assert(d0[x] != usize::MAX);
        }
    }
}

/// Taking up the vertex at `head`: nearer than the limit, all its neighbors
/// are found by now.
proof fn lemma_bfs_expand(
    springs: Seq<(usize, usize)>,
    n: int,
    start: int,
    limit: int,
    dist: Seq<usize>,
    order: Seq<usize>,
    head: int,
    nbrs: Seq<usize>,
)
    requires
        bfs_inv(springs, n, start, limit, dist, order, head),
        head < order.len(),
        forall|w: usize| #[trigger] nbrs.contains(w) <==> adjacent(springs, order[head] as int, w as int),
        forall|j: int| 0 <= j < springs.len() ==> (#[trigger] springs[j]).0 < n && springs[j].1 < n,
        dist[order[head] as int] < limit ==> forall|s: int|
            0 <= s < nbrs.len() ==> dist[#[trigger] nbrs[s] as int] != usize::MAX && dist[nbrs[s] as int] <= dist[order[head] as int]
                + 1,
    ensures
        bfs_inv(springs, n, start, limit, dist, order, head + 1),
{
    assert forall|j: int, w: int|
        0 <= j < head + 1 && dist[order[j] as int] < limit && #[trigger] adjacent(springs, order[j] as int, w) implies 0 <= w
            < n && dist[w] != usize::MAX && dist[w] <= dist[order[j] as int] + 1 by {
        if j == head {
            let k = choose|k: int|
                0 <= k < springs.len() && ((#[trigger] springs[k]).0 == order[j] as int && springs[k].1 == w || springs[k].0
                    == w && springs[k].1 == order[j] as int);
            assert(0 <= w < n);
            assert(nbrs.contains(w as usize));
            let s = choose|s: int| 0 <= s < nbrs.len() && nbrs[s] == w as usize;
            assert(dist[nbrs[s] as int] != usize::MAX);
        }
    }
    if head + 1 < order.len() {
        assert(dist[order[head] as int] <= dist[order[head + 1] as int]);
    }
}

/// Breadth-first search from `start`, taking up only vertices nearer than
/// `limit`: `dist` starts unset everywhere and ends holding the distance of
/// each vertex within `limit` springs of `start`, which the result lists in
/// the order found, nearest first; the other vertices stay unset.
/// Searching from a vertex at distance `du` through its neighbors `nbrs`,
/// in order, from the distances and found vertices `st`: each neighbor not
/// yet found is found, at distance `du + 1`.
pub open spec fn bfs_visit(nbrs: Seq<usize>, du: usize, st: (Seq<usize>, Seq<usize>)) -> (Seq<usize>, Seq<usize>)
    decreases nbrs.len(),
{
    if nbrs.len() == 0 {
        st
    } else {
        let st1 = bfs_visit(nbrs.drop_last(), du, st);
        let w = nbrs.last();
        if st1.0[w as int] == usize::MAX {
            (st1.0.update(w as int, (du + 1) as usize), st1.1.push(w))
        } else {
            st1
        }
    }
}

/// The breadth-first search over the adjacency lists `adj` from the state
/// `st` (distances, vertices in the order found), having taken up the first
/// `head` found vertices: the next found vertex is taken up, its neighbors
/// searched when it is nearer than `limit`, for at most `fuel` vertices.
pub open spec fn bfs_steps(adj: Seq<Seq<usize>>, limit: usize, st: (Seq<usize>, Seq<usize>), head: nat, fuel: nat) -> (
    Seq<usize>,
    Seq<usize>,
)
    decreases fuel,
{
    if fuel == 0 || head >= st.1.len() {
        st
    } else {
        let u = st.1[head as int];
        let du = st.0[u as int];
        let st2 = if du < limit {
            bfs_visit(adj[u as int], du, st)
        } else {
            st
        };
        bfs_steps(adj, limit, st2, head + 1, (fuel - 1) as nat)
    }
}

/// The breadth-first search from `start` with distances `dist0`: the final
/// distances and the vertices in the order found.
pub open spec fn bfs_run(adj: Seq<Seq<usize>>, limit: usize, dist0: Seq<usize>, start: usize) -> (Seq<usize>, Seq<usize>) {
    bfs_steps(adj, limit, (dist0, seq![start]), 0, adj.len() + 1)
}

pub(crate) fn search_within(
    adj: &Vec<Vec<usize>>,
    Ghost(springs): Ghost<Seq<(usize, usize)>>,
    dist: &mut Vec<usize>,
    start: usize,
    limit: usize,
) -> (order: Vec<usize>)
    requires
        start < adj.len() < usize::MAX,
        old(dist).len() == adj.len(),
        forall|x: int| 0 <= x < adj.len() ==> #[trigger] old(dist)@[x] == usize::MAX,
        forall|j: int| 0 <= j < springs.len() ==> (#[trigger] springs[j]).0 < adj.len() && springs[j].1 < adj.len(),
        forall|u: int, w: usize| 0 <= u < adj.len() ==> (#[trigger] adj@[u]@.contains(w) <==> adjacent(springs, u, w as int)),
        forall|u: int, t: int| 0 <= u < adj.len() && 0 <= t < adj@[u].len() ==> #[trigger] adj@[u]@[t] < adj.len(),
    ensures
        (final(dist)@, order@) == bfs_run(adj_view(adj@), limit, old(dist)@.update(start as int, 0), start),
        final(dist).len() == adj.len(),
        1 <= order.len() <= adj.len(),
        order@[0] == start,
        order@.no_duplicates(),
        forall|i: int| 0 <= i < order.len() ==> (#[trigger] order@[i]) < adj.len(),
        forall|x: int| 0 <= x < adj.len() ==> (#[trigger] final(dist)@[x] != usize::MAX <==> order@.contains(x as usize)),
        forall|i: int, j: int|
            #![trigger order@[i], order@[j]]
            0 <= i <= j < order.len() ==> final(dist)@[order@[i] as int] <= final(dist)@[order@[j] as int],
        forall|x: int|
            0 <= x < adj.len() && #[trigger] final(dist)@[x] != usize::MAX ==> hop_distance(springs, start as int, x, final(dist)@[x] as int)
                && final(dist)@[x] <= limit,
        forall|x: int, k: int|
            k <= limit && #[trigger] within_hops(springs, start as int, x, k) ==> 0 <= x < adj.len() && final(dist)@[x]
                != usize::MAX && final(dist)@[x] <= k,
        adj.len() <= limit ==> forall|x: int|
            #[trigger] linked(springs, start as int, x) ==> 0 <= x < adj.len() && final(dist)@[x] != usize::MAX,
{
    let n = adj.len();
    let ghost av = adj_view(adj@);
    let ghost fin = bfs_run(av, limit, old(dist)@.update(start as int, 0), start);
    dist.set(start, 0);
    let mut order: Vec<usize> = Vec::new();
    order.push(start);
    proof {
        assert(order@ =~= seq![start]);
    }
    let mut queue: VecDeque<usize> = VecDeque::new();
    queue.push_back(start);
    let ghost mut head: int = 0;
    proof {
        lemma_within_start(springs, start as int);
        assert forall|x: int| 0 <= x < n && #[trigger] dist@[x] != usize::MAX implies exists|i: int|
            0 <= i < order@.len() && order@[i] == x by {
            assert(order@[0] == x);
        }
    }
    while queue.len() > 0
        invariant
            0 <= head <= order.len(),
            queue@ == order@.subrange(head, order.len() as int),
            n == adj.len(),
            start < n < usize::MAX,
            forall|j: int| 0 <= j < springs.len() ==> (#[trigger] springs[j]).0 < n && springs[j].1 < n,
            forall|u: int, w: usize| 0 <= u < n ==> (#[trigger] adj@[u]@.contains(w) <==> adjacent(springs, u, w as int)),
            forall|u: int, t: int| 0 <= u < n && 0 <= t < adj@[u].len() ==> #[trigger] adj@[u]@[t] < n,
            bfs_inv(springs, n as int, start as int, limit as int, dist@, order@, head),
            av == adj_view(adj@),
            bfs_steps(av, limit, (dist@, order@), head as nat, (n + 1 - head) as nat) == fin,
        decreases n - head,
    {
        let u = queue.pop_front().unwrap();
        proof {
            assert(u == order@[head]);
        }
        let du = dist[u];
        let ghost d_pre = dist@;
        let ghost o_pre = order@;
        proof {
            assert(av[u as int] == adj@[u as int]@);
            assert(adj@[u as int]@.take(0) =~= Seq::<usize>::empty());
        }
        if du < limit {
            let mut t: usize = 0;
            while t < adj[u].len()
                invariant
                    n == adj.len(),
                    start < n < usize::MAX,
                    forall|j: int| 0 <= j < springs.len() ==> (#[trigger] springs[j]).0 < n && springs[j].1 < n,
                    forall|u: int, w: usize|
                        0 <= u < n ==> (#[trigger] adj@[u]@.contains(w) <==> adjacent(springs, u, w as int)),
                    forall|u: int, t: int| 0 <= u < n && 0 <= t < adj@[u].len() ==> #[trigger] adj@[u]@[t] < n,
                    bfs_inv(springs, n as int, start as int, limit as int, dist@, order@, head),
                    (dist@, order@) == bfs_visit(adj@[u as int]@.take(t as int), du, (d_pre, o_pre)),
                    0 <= head < order.len(),
                    queue@ == order@.subrange(head + 1, order.len() as int),
                    u == order@[head],
                    du == dist@[u as int],
                    du < limit,
                    t <= adj@[u as int].len(),
                    forall|s: int|
                        0 <= s < t ==> dist@[#[trigger] adj@[u as int]@[s] as int] != usize::MAX && dist@[adj@[u as int]@[s] as int]
                            <= du + 1,
                decreases adj@[u as int].len() - t,
            {
                let w = adj[u][t];
                let ghost d0 = dist@;
                let ghost o0 = order@;
                if dist[w] == usize::MAX {
                    proof {
                        assert(adj@[u as int]@.contains(w));
                        lemma_bfs_room(n as int, start as int, d0, o0, head as int, w as int);
                    }
                    dist.set(w, du + 1);
                    order.push(w);
                    queue.push_back(w);
                    proof {
                        assert(queue@ =~= order@.subrange(head + 1, order.len() as int));
                        lemma_bfs_found(
                            springs,
                            n as int,
                            start as int,
                            limit as int,
                            d0,
                            o0,
                            head as int,
                            w as int,
                            dist@,
                            order@,
                        );
                    }
                }
                proof {
                    let nb = adj@[u as int]@;
                    assert(nb.take(t + 1).drop_last() =~= nb.take(t as int));
                    assert(nb.take(t + 1).last() == w);
                    assert((dist@, order@) == bfs_visit(nb.take(t + 1), du, (d_pre, o_pre)));
                    let dw = dist@[w as int];
                    assert(dw != usize::MAX && dw <= du + 1) by {
                        if d0[w as int] != usize::MAX {
                            let i = choose|i: int| 0 <= i < o0.len() && o0[i] == w;
                            assert(d0[o0[i] as int] <= d0[o0.last() as int]);
                        }
                    }
                    assert forall|s: int|
                        0 <= s < t + 1 implies dist@[#[trigger] adj@[u as int]@[s] as int] != usize::MAX && dist@[adj@[u as int]@[s] as int]
                            <= du + 1 by {
                        if s < t {
                            assert(d0[adj@[u as int]@[s] as int] != usize::MAX);
                        }
                    }
                }
                t = t + 1;
            }
        }
        proof {
            lemma_bfs_expand(springs, n as int, start as int, limit as int, dist@, order@, head as int, adj@[u as int]@);
            if du < limit {
                assert(adj@[u as int]@.take(adj@[u as int]@.len() as int) =~= adj@[u as int]@);
            }
            assert(o_pre[head] == u);
            assert(d_pre[u as int] == du);
            assert((n + 1 - head) as nat > 0);
            assert(bfs_steps(av, limit, (d_pre, o_pre), head as nat, (n + 1 - head) as nat) == bfs_steps(
                av,
                limit,
                (dist@, order@),
                (head + 1) as nat,
                (n + 1 - (head + 1)) as nat,
            ));
        }
        proof {
            head = head + 1;
        }
    }
    proof {
        assert(head == order.len());
        assert(bfs_steps(av, limit, (dist@, order@), head as nat, (n + 1 - head) as nat) == (dist@, order@));
        lemma_bfs_finish(springs, n as int, start as int, limit as int, dist@, order@);
    }
    order
}

/// What a finished search shows: the found vertices are exactly those a path
/// reaches within the limit, each at its distance.
proof fn lemma_bfs_finish(
    springs: Seq<(usize, usize)>,
    n: int,
    start: int,
    limit: int,
    dist: Seq<usize>,
    order: Seq<usize>,
)
    requires
        bfs_inv(springs, n, start, limit, dist, order, order.len() as int),
    ensures
        forall|x: int| 0 <= x < n ==> (#[trigger] dist[x] != usize::MAX <==> order.contains(x as usize)),
        forall|x: int|
            0 <= x < n && #[trigger] dist[x] != usize::MAX ==> hop_distance(springs, start, x, dist[x] as int) && dist[x]
                <= limit,
        forall|x: int, k: int|
            k <= limit && #[trigger] within_hops(springs, start, x, k) ==> 0 <= x < n && dist[x] != usize::MAX && dist[x]
                <= k,
        n <= limit ==> forall|x: int| #[trigger] linked(springs, start, x) ==> 0 <= x < n && dist[x] != usize::MAX,
{
    assert forall|x: int| 0 <= x < n implies (#[trigger] dist[x] != usize::MAX <==> order.contains(x as usize)) by {
        if dist[x] != usize::MAX {
            let i = choose|i: int| 0 <= i < order.len() && order[i] == x;
            assert(order[i] == x as usize);
        }
        if order.contains(x as usize) {
            let i = choose|i: int| 0 <= i < order.len() && order[i] == x as usize;
            assert(dist[order[i] as int] != usize::MAX);
        }
    }
    assert forall|x: int, k: int| k <= limit && #[trigger] within_hops(springs, start, x, k) implies 0 <= x < n && dist[x]
        != usize::MAX && dist[x] <= k by {
        let p = choose|p: Seq<int>| #[trigger] is_path(springs, p) && p[0] == start && p.last() == x && p.len() <= k + 1;
        lemma_bfs_lower(springs, n, start, limit, dist, order, p, p.len() - 1);
    }
    assert forall|x: int|
        0 <= x < n && #[trigger] dist[x] != usize::MAX implies hop_distance(springs, start, x, dist[x] as int) && dist[x]
            <= limit by {
        if within_hops(springs, start, x, dist[x] - 1) {
            let p = choose|p: Seq<int>|
                #[trigger] is_path(springs, p) && p[0] == start && p.last() == x && p.len() <= dist[x] - 1 + 1;
            lemma_bfs_lower(springs, n, start, limit, dist, order, p, p.len() - 1);
        }
    }
    if n <= limit {
        assert forall|x: int| #[trigger] linked(springs, start, x) implies 0 <= x < n && dist[x] != usize::MAX by {
            let p = choose|p: Seq<int>| #[trigger] is_path(springs, p) && p[0] == start && p.last() == x;
            lemma_bfs_lower(springs, n, start, limit, dist, order, p, p.len() - 1);
        }
    }
}

/// The search from `start` over the whole graph of `adj`: the distances and
/// the vertices in the order found.
pub open spec fn full_search(adj: Seq<Seq<usize>>, start: usize) -> (Seq<usize>, Seq<usize>) {
    bfs_run(adj, adj.len() as usize, Seq::new(adj.len(), |i: int| usize::MAX).update(start as int, 0), start)
}

/// `i` is the first position, among the vertices found by the search `st`,
/// of a vertex as far as the last one found.
pub open spec fn first_at_last_distance(st: (Seq<usize>, Seq<usize>), i: int) -> bool {
    &&& 0 <= i < st.1.len()
    &&& st.0[st.1[i] as int] == st.0[st.1.last() as int]
    &&& forall|j: int| 0 <= j < i ==> st.0[(#[trigger] st.1[j]) as int] != st.0[st.1.last() as int]
}

/// The first vertex the search from `start` finds at the greatest distance.
pub open spec fn first_farthest(adj: Seq<Seq<usize>>, start: usize) -> usize {
    let st = full_search(adj, start);
    st.1[choose|i: int| first_at_last_distance(st, i)]
}

/// Breadth-first search from `start`: a vertex farthest from `start` among
/// those that a path from `start` reaches (the first found at that
/// distance), and its distance.
fn farthest_from(adj: &Vec<Vec<usize>>, Ghost(springs): Ghost<Seq<(usize, usize)>>, start: usize) -> (r: (usize, usize))
    requires
        start < adj.len() < usize::MAX,
        forall|j: int| 0 <= j < springs.len() ==> (#[trigger] springs[j]).0 < adj.len() && springs[j].1 < adj.len(),
        forall|u: int, w: usize| 0 <= u < adj.len() ==> (#[trigger] adj@[u]@.contains(w) <==> adjacent(springs, u, w as int)),
        forall|u: int, t: int| 0 <= u < adj.len() && 0 <= t < adj@[u].len() ==> #[trigger] adj@[u]@[t] < adj.len(),
    ensures
        r.0 < adj.len(),
        r.0 == first_farthest(adj_view(adj@), start),
        hop_distance(springs, start as int, r.0 as int, r.1 as int),
        eccentricity(springs, start as int, r.1 as int),
{
    let n = adj.len();
    let mut dist: Vec<usize> = Vec::new();
    let mut q: usize = 0;
    while q < n
        invariant
            q <= n,
            dist.len() == q,
            forall|x: int| 0 <= x < q ==> #[trigger] dist@[x] == usize::MAX,
        decreases n - q,
    {
        dist.push(usize::MAX);
        q = q + 1;
    }
    proof {
        assert(dist@ =~= Seq::new(n as nat, |i: int| usize::MAX));
    }
    let order = search_within(adj, Ghost(springs), &mut dist, start, n);
    let far_d = dist[order[order.len() - 1]];
    let mut i: usize = 0;
    while i < order.len() - 1 && dist[order[i]] != far_d
        invariant
            0 <= i < order.len(),
            far_d == dist@[order@[order.len() - 1] as int],
            forall|j: int| 0 <= j < i ==> dist@[(#[trigger] order@[j]) as int] != far_d,
            forall|x: int| 0 <= x < order.len() ==> (#[trigger] order@[x]) < n,
            n == dist.len(),
        decreases order.len() - i,
    {
        i = i + 1;
    }
    let far = order[i];
    proof {
        let st = full_search(adj_view(adj@), start);
        assert(st == (dist@, order@));
        assert(first_at_last_distance(st, i as int));
        let c = choose|c: int| first_at_last_distance(st, c);
        if c < i {
            assert(st.0[st.1[c] as int] != st.0[st.1.last() as int]);
        }
        if i < c {
            assert(st.0[st.1[i as int] as int] != st.0[st.1.last() as int]);
        }
        assert(c == i);
        let last = order@[order.len() - 1] as int;
        assert(order@.contains(last as usize));
        assert(dist@[last] != usize::MAX);
        assert(hop_distance(springs, start as int, last, far_d as int));
        assert(dist@[far as int] == far_d);
        assert(order@.contains(far));
        assert(dist@[far as int] != usize::MAX);
        assert forall|v: int| #[trigger] linked(springs, start as int, v) implies within_hops(springs, start as int, v, far_d as int) by {
            assert(dist@[v] != usize::MAX);
            assert(order@.contains(v as usize));
            let j = choose|j: int| 0 <= j < order.len() && order@[j] == v as usize;
            assert(dist@[order@[j] as int] <= dist@[order@[order.len() - 1] as int]);
            assert(hop_distance(springs, start as int, v, dist@[v] as int));
            lemma_within_more(springs, start as int, v, dist@[v] as int, far_d as int);
        }
    }
    (far, far_d)
}

/// The double-sweep estimate of the diameter, in hops, of the graph on the
/// vertices `0..n` joined by `springs`: `u` is the first vertex that a
/// breadth-first search from vertex 0 (over the springs' adjacency lists)
/// finds at the greatest distance, and the estimate is the eccentricity of
/// `u`, or 1 where that is smaller.
pub fn pseudo_diameter_hops(n: usize, springs: &[(usize, usize)]) -> (r: usize)
    requires
        n < usize::MAX,
        forall|j: int| 0 <= j < springs.len() ==> (#[trigger] springs@[j]).0 < n && springs@[j].1 < n,
    ensures
        n <= 1 ==> r == 1,
        n > 1 ==> exists|d: int|
            #[trigger] double_sweep(springs@, first_farthest(spring_adjacency(n as nat, springs@), 0) as int, d) && r == (if d
                > 1 {
                d
            } else {
                1
            }),
{
    if n <= 1 {
        return 1;
    }
    let adj = adjacency_lists(n, springs);
    let (u, d0) = farthest_from(&adj, Ghost(springs@), 0);
    let (_, d) = farthest_from(&adj, Ghost(springs@), u);
    proof {
        assert(eccentricity(springs@, 0, d0 as int) && hop_distance(springs@, 0, u as int, d0 as int));
        assert(double_sweep(springs@, u as int, d as int));
    }
    if d > 1 {
        d
    } else {
        1
    }
}

} // verus!
