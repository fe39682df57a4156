//! Coarsening of a weighted spring graph for multilevel layout: collapse a
//! greedy matching, or fall back to a maximal independent set whose members
//! are joined within three hops. Vertex and spring weights are counts.

use std::collections::BTreeMap;
use vstd::prelude::*;

use crate::distance::adjacency_lists;
use crate::distance::search_within;
use crate::distance::within_hops;
use crate::drawing::adjacent;

verus! {

/// Vertex pairs in lexicographic order.
pub open spec fn pair_lt(a: (usize, usize), b: (usize, usize)) -> bool {
    a.0 < b.0 || a.0 == b.0 && a.1 < b.1
}

/// The total weight of the entries of `pairs` with key `key`.
pub open spec fn key_weight(pairs: Seq<((usize, usize), u64)>, key: (usize, usize)) -> int
    decreases pairs.len(),
{
    if pairs.len() == 0 {
        0
    } else {
        key_weight(pairs.drop_last(), key) + if pairs.last().0 == key {
            pairs.last().1 as int
        } else {
            0
        }
    }
}

/// The total weight of all entries of `pairs`.
pub open spec fn total_weight(pairs: Seq<((usize, usize), u64)>) -> int
    decreases pairs.len(),
{
    if pairs.len() == 0 {
        0
    } else {
        total_weight(pairs.drop_last()) + pairs.last().1
    }
}

/// Some entry of `pairs` has key `key`.
pub open spec fn has_key(pairs: Seq<((usize, usize), u64)>, key: (usize, usize)) -> bool {
    exists|j: int| 0 <= j < pairs.len() && (#[trigger] pairs[j]).0 == key
}

/// The keys of `r` rise strictly.
pub open spec fn keys_rising(r: Seq<(usize, usize, u64)>) -> bool {
    forall|i: int, j: int| 0 <= i < j < r.len() ==> pair_lt((#[trigger] r[i].0, r[i].1), (#[trigger] r[j].0, r[j].1))
}

/// `r` lists the keys of `pairs` once each, in order, with their total
/// weights.
pub open spec fn merged(pairs: Seq<((usize, usize), u64)>, r: Seq<(usize, usize, u64)>) -> bool {
    &&& keys_rising(r)
    &&& forall|i: int| 0 <= i < r.len() ==> (#[trigger] r[i]).2 == key_weight(pairs, (r[i].0, r[i].1))
    &&& forall|key: (usize, usize)|
        #[trigger] has_key(pairs, key) <==> exists|i: int| 0 <= i < r.len() && (#[trigger] r[i].0, r[i].1) == key
}

proof fn lemma_key_weight_bound(pairs: Seq<((usize, usize), u64)>, key: (usize, usize))
    ensures
        0 <= key_weight(pairs, key) <= total_weight(pairs),
    decreases pairs.len(),
{
    if pairs.len() > 0 {
        lemma_key_weight_bound(pairs.drop_last(), key);
    }
}

proof fn lemma_key_weight_absent(pairs: Seq<((usize, usize), u64)>, key: (usize, usize))
    requires
        !has_key(pairs, key),
    ensures
        key_weight(pairs, key) == 0,
    decreases pairs.len(),
{
    if pairs.len() > 0 {
        let p = pairs.drop_last();
        assert(!has_key(p, key)) by {
            if has_key(p, key) {
                let j = choose|j: int| 0 <= j < p.len() && (#[trigger] p[j]).0 == key;
                assert(pairs[j] == p[j]);
            }
        }
        lemma_key_weight_absent(p, key);
        assert(pairs[pairs.len() - 1].0 != key);
    }
}

/// Vertex pairs are ordered as std orders pairs of integers, which is
/// [`pair_lt`]: a map keyed by vertex pairs lists its keys in that order.
proof fn lemma_pair_keys_ordered()
    ensures
        vstd::laws_cmp::obeys_cmp::<(usize, usize)>(),
        vstd::std_specs::btree::key_obeys_cmp_spec::<(usize, usize)>(),
        forall|s: Seq<(usize, usize)>|
            #[trigger] vstd::std_specs::btree::increasing_seq(s) ==> forall|i: int, j: int|
                0 <= i < j < s.len() ==> pair_lt(#[trigger] s[i], #[trigger] s[j]),
{
    broadcast use vstd::laws_cmp::group_laws_cmp;
    broadcast use vstd::std_specs::btree::group_btree_axioms;

    assert(vstd::laws_cmp::obeys_cmp::<usize>());
    assert(vstd::laws_cmp::obeys_cmp::<(usize, usize)>());
    assert forall|s: Seq<(usize, usize)>| #[trigger] vstd::std_specs::btree::increasing_seq(s) implies forall|i: int, j: int|
        0 <= i < j < s.len() ==> pair_lt(#[trigger] s[i], #[trigger] s[j]) by {
        assert forall|i: int, j: int| 0 <= i < j < s.len() implies pair_lt(#[trigger] s[i], #[trigger] s[j]) by {
            assert(vstd::std_specs::cmp::OrdSpec::cmp_spec(&s[i], &s[j]) is Less);
        }
    }
}

/// Sums the weights of equal keys: the keys of `pairs` once each, in
/// increasing order, each with its total weight.
pub fn merge_weighted(pairs: &Vec<((usize, usize), u64)>) -> (r: Vec<(usize, usize, u64)>)
    requires
        total_weight(pairs@) <= u64::MAX,
    ensures
        merged(pairs@, r@),
{
    broadcast use vstd::std_specs::btree::group_btree_axioms;

    proof {
        lemma_pair_keys_ordered();
    }
    let mut sums: BTreeMap<(usize, usize), u64> = BTreeMap::new();
    let mut i: usize = 0;
    while i < pairs.len()
        invariant
            i <= pairs.len(),
            total_weight(pairs@) <= u64::MAX,
            forall|k: (usize, usize)| #[trigger] sums@.contains_key(k) <==> has_key(pairs@.take(i as int), k),
            forall|k: (usize, usize)| #[trigger] sums@.contains_key(k) ==> sums@[k] == key_weight(pairs@.take(i as int), k),
        decreases pairs.len() - i,
    {
        let (key, w) = pairs[i];
        let ghost pre = pairs@.take(i as int);
        let ghost post = pairs@.take(i + 1);
        proof {
            assert(post.drop_last() =~= pre);
            assert(post.last() == (key, w));
            lemma_total_prefix(pairs@, i as int + 1);
            lemma_key_weight_bound(post, key);
            if !has_key(pre, key) {
                lemma_key_weight_absent(pre, key);
            }
        }
        let before: u64 = match sums.get(&key) {
            Some(v) => *v,
            None => 0,
        };
        sums.insert(key, before + w);
        proof {
            assert forall|k: (usize, usize)| #[trigger] sums@.contains_key(k) <==> has_key(post, k) by {
                lemma_has_key_push(pairs@, i as int, k);
            }
        }
        i = i + 1;
    }
    proof {
        assert(pairs@.take(pairs.len() as int) =~= pairs@);
    }
    let mut out: Vec<(usize, usize, u64)> = Vec::new();
    let iter = sums.iter();
    let ghost all = vstd::std_specs::iter::IteratorSpec::remaining(&iter);
    let ghost keys = all.map_values(|kv: (&(usize, usize), &u64)| *kv.0);
    proof {
        assert(vstd::std_specs::btree::increasing_seq(keys));
    }
    for kv in it: iter
        invariant
            it.seq() == all,
            all.len() == sums@.dom().len(),
            keys == all.map_values(|kv: (&(usize, usize), &u64)| *kv.0),
            forall|i: int, j: int| 0 <= i < j < keys.len() ==> pair_lt(#[trigger] keys[i], #[trigger] keys[j]),
            forall|q: int| 0 <= q < all.len() ==> sums@.contains_key(*(#[trigger] all[q]).0) && sums@[*all[q].0] == *all[q].1,
            forall|k: (usize, usize)| #[trigger] sums@.contains_key(k) ==> all.contains((&k, &sums@[k])),
            out.len() == it.index(),
            forall|q: int| 0 <= q < out.len() ==> (#[trigger] out@[q]).0 == (*all[q].0).0 && out@[q].1 == (*all[q].0).1 && out@[q].2 == *all[q].1,
    {
        let (k, w) = kv;
        out.push((k.0, k.1, *w));
    }
    proof {
        assert(out.len() == all.len());
        assert(keys_rising(out@)) by {
            assert forall|a: int, b: int| 0 <= a < b < out@.len() implies pair_lt((#[trigger] out@[a].0, out@[a].1), (#[trigger] out@[b].0, out@[b].1)) by {
                assert(keys[a] == *all[a].0);
                assert(keys[b] == *all[b].0);
            }
        }
        assert forall|key: (usize, usize)| #[trigger] has_key(pairs@, key) <==> exists|i: int| 0 <= i < out@.len() && (#[trigger] out@[i].0, out@[i].1) == key by {
            if has_key(pairs@, key) {
                assert(sums@.contains_key(key));
                let q = choose|q: int| 0 <= q < all.len() && all[q] == (&key, &sums@[key]);
                assert((out@[q].0, out@[q].1) == key);
            }
            if exists|i: int| 0 <= i < out@.len() && (#[trigger] out@[i].0, out@[i].1) == key {
                let i = choose|i: int| 0 <= i < out@.len() && (#[trigger] out@[i].0, out@[i].1) == key;
                assert(*all[i].0 == key);
                assert(sums@.contains_key(*all[i].0));
            }
        }
        assert forall|i: int| 0 <= i < out@.len() implies (#[trigger] out@[i]).2 == key_weight(pairs@, (out@[i].0, out@[i].1)) by {
            assert(*all[i].0 == (out@[i].0, out@[i].1));
            assert(sums@.contains_key(*all[i].0));
        }
    }
    out
}

proof fn lemma_total_prefix(pairs: Seq<((usize, usize), u64)>, k: int)
    requires
        0 <= k <= pairs.len(),
    ensures
        total_weight(pairs.take(k)) <= total_weight(pairs),
    decreases pairs.len() - k,
{
    if k < pairs.len() {
        lemma_total_prefix(pairs, k + 1);
        assert(pairs.take(k + 1).drop_last() =~= pairs.take(k));
    } else {
        assert(pairs.take(k) =~= pairs);
    }
}

proof fn lemma_has_key_push(pairs: Seq<((usize, usize), u64)>, i: int, k: (usize, usize))
    requires
        0 <= i < pairs.len(),
    ensures
        has_key(pairs.take(i + 1), k) <==> (has_key(pairs.take(i), k) || pairs[i].0 == k),
{
    let pre = pairs.take(i);
    let post = pairs.take(i + 1);
    if has_key(post, k) {
        let j = choose|j: int| 0 <= j < post.len() && (#[trigger] post[j]).0 == k;
        if j < i {
            assert(pre[j] == post[j]);
        }
    }
    if has_key(pre, k) {
        let j = choose|j: int| 0 <= j < pre.len() && (#[trigger] pre[j]).0 == k;
        assert(post[j] == pre[j]);
    }
    if pairs[i].0 == k {
        assert(post[i] == pairs[i]);
    }
}

/// The vertex pairs of weighted springs.
pub open spec fn unweighted(springs: Seq<(usize, usize, u64)>) -> Seq<(usize, usize)> {
    springs.map_values(|s: (usize, usize, u64)| (s.0, s.1))
}

/// A spring of weight `w` joins `v` and `u`, in either direction.
pub open spec fn spring_at(springs: Seq<(usize, usize, u64)>, v: usize, u: usize, w: u64) -> bool {
    exists|k: int| 0 <= k < springs.len() && (#[trigger] springs[k] == (v, u, w) || springs[k] == (u, v, w))
}

/// The total weight of the first `k` vertices.
pub open spec fn weight_total(vw: Seq<u64>, k: int) -> int
    decreases k,
{
    if k <= 0 {
        0
    } else {
        weight_total(vw, k - 1) + vw[k - 1]
    }
}

/// The total weight of the springs.
pub open spec fn spring_total(springs: Seq<(usize, usize, u64)>) -> int
    decreases springs.len(),
{
    if springs.len() == 0 {
        0
    } else {
        spring_total(springs.drop_last()) + springs.last().2
    }
}

/// Partner `u` over a spring of weight `w` is preferred to `u2` over `w2`:
/// a lighter vertex, then a heavier spring, then a smaller index.
pub open spec fn prefer(vw: Seq<u64>, u: usize, w: u64, u2: usize, w2: u64) -> bool {
    vw[u as int] < vw[u2 as int] || vw[u as int] == vw[u2 as int] && (w > w2 || w == w2 && u < u2)
}

/// `u`, over a spring of weight `w`, is an unmatched neighbor of `v` other
/// than `v`.
pub open spec fn candidate(springs: Seq<(usize, usize, u64)>, mate: Seq<Option<usize>>, v: usize, u: usize, w: u64) -> bool {
    spring_at(springs, v, u, w) && u != v && mate[u as int] is None
}

/// The candidate `(u, w)` of `v` that no other candidate is preferred to.
pub open spec fn best_candidate(
    springs: Seq<(usize, usize, u64)>,
    vw: Seq<u64>,
    mate: Seq<Option<usize>>,
    v: usize,
    u: usize,
    w: u64,
) -> bool {
    &&& candidate(springs, mate, v, u, w)
    &&& forall|u2: usize, w2: u64| #[trigger] candidate(springs, mate, v, u2, w2) ==> !prefer(vw, u2, w2, u, w)
}

/// The partner `v` takes when it is visited unmatched: its best candidate,
/// if it has any.
pub open spec fn partner(springs: Seq<(usize, usize, u64)>, vw: Seq<u64>, mate: Seq<Option<usize>>, v: usize) -> Option<
    usize,
> {
    if exists|u: usize, w: u64| #[trigger] best_candidate(springs, vw, mate, v, u, w) {
        Some((choose|u: usize, w: u64| #[trigger] best_candidate(springs, vw, mate, v, u, w)).0)
    } else {
        None
    }
}

/// The greedy matching after visiting the vertices below `k` in order: an
/// unmatched vertex is matched to its partner, if it has one.
pub open spec fn matching_after(springs: Seq<(usize, usize, u64)>, vw: Seq<u64>, n: nat, k: nat) -> Seq<Option<usize>>
    decreases k,
{
    if k == 0 {
        Seq::new(n, |i: int| None)
    } else {
        let m = matching_after(springs, vw, n, (k - 1) as nat);
        let v = (k - 1) as usize;
        if m[v as int] is Some {
            m
        } else {
            match partner(springs, vw, m, v) {
                Some(u) => m.update(v as int, Some(u)).update(u as int, Some(v)),
                None => m,
            }
        }
    }
}

/// The greedy matching of the vertices `0..n`.
pub open spec fn greedy_matching(springs: Seq<(usize, usize, u64)>, vw: Seq<u64>, n: nat) -> Seq<Option<usize>> {
    matching_after(springs, vw, n, n)
}

/// The best candidate of a vertex is unique.
proof fn lemma_best_unique(
    springs: Seq<(usize, usize, u64)>,
    vw: Seq<u64>,
    mate: Seq<Option<usize>>,
    v: usize,
    u: usize,
    w: u64,
)
    requires
        best_candidate(springs, vw, mate, v, u, w),
    ensures
        partner(springs, vw, mate, v) == Some(u),
{
    let (u2, w2) = choose|u2: usize, w2: u64| #[trigger] best_candidate(springs, vw, mate, v, u2, w2);
    assert(best_candidate(springs, vw, mate, v, u2, w2));
    assert(!prefer(vw, u2, w2, u, w));
    assert(!prefer(vw, u, w, u2, w2));
}

/// Each matched vertex of the greedy matching has a partner that is matched
/// back to it, and the vertices from `k` on are matched only to vertices
/// below `k`.
proof fn lemma_matching_wf(springs: Seq<(usize, usize, u64)>, vw: Seq<u64>, n: nat, k: nat)
    requires
        k <= n,
        forall|j: int| 0 <= j < springs.len() ==> (#[trigger] springs[j]).0 < n && springs[j].1 < n,
    ensures
        matching_after(springs, vw, n, k).len() == n,
        forall|x: int|
            0 <= x < n && (#[trigger] matching_after(springs, vw, n, k)[x]) is Some ==> matching_after(springs, vw, n, k)[x]->Some_0
                < n && matching_after(springs, vw, n, k)[x]->Some_0 != x && matching_after(springs, vw, n, k)[matching_after(
                springs,
                vw,
                n,
                k,
            )[x]->Some_0 as int] == Some(x as usize),
        forall|x: int|
            k <= x < n && (#[trigger] matching_after(springs, vw, n, k)[x]) is Some ==> matching_after(springs, vw, n, k)[x]->Some_0
                < k,
    decreases k,
{
    if k > 0 {
        lemma_matching_wf(springs, vw, n, (k - 1) as nat);
        let m = matching_after(springs, vw, n, (k - 1) as nat);
        let v = (k - 1) as usize;
        if m[v as int] is None {
            if let Some(u) = partner(springs, vw, m, v) {
                let (u1, w1) = choose|u1: usize, w1: u64| #[trigger] best_candidate(springs, vw, m, v, u1, w1);
                assert(best_candidate(springs, vw, m, v, u1, w1));
                assert(u == u1);
                let kk = choose|kk: int|
                    0 <= kk < springs.len() && (#[trigger] springs[kk] == (v, u, w1) || springs[kk] == (u, v, w1));
                assert(u < n);
                let m1 = matching_after(springs, vw, n, k);
                assert(m1 == m.update(v as int, Some(u)).update(u as int, Some(v)));
                assert forall|x: int| 0 <= x < n && (#[trigger] m1[x]) is Some implies m1[x]->Some_0 < n && m1[x]->Some_0 != x
                    && m1[m1[x]->Some_0 as int] == Some(x as usize) by {
                    if x != v && x != u {
                        assert(m1[x] == m[x]);
                        let y = m[x]->Some_0;
                        assert(m[y as int] == Some(x as usize));
                        assert(y != v && y != u);
                    }
                }
                assert forall|x: int| k <= x < n && (#[trigger] m1[x]) is Some implies m1[x]->Some_0 < k by {
                    if x != u {
                        assert(m1[x] == m[x]);
                    }
                }
            }
        }
    }
}

/// For each vertex, the other ends and weights of the springs at it, in
/// spring order.
fn weighted_adjacency(n: usize, springs: &[(usize, usize, u64)]) -> (r: Vec<Vec<(usize, u64)>>)
    requires
        forall|j: int| 0 <= j < springs.len() ==> (#[trigger] springs@[j]).0 < n && springs@[j].1 < n,
    ensures
        r.len() == n,
        forall|v: int, u: usize, w: u64|
            0 <= v < n ==> (#[trigger] r@[v]@.contains((u, w)) <==> spring_at(springs@, v as usize, u, w)),
        forall|v: int, t: int| 0 <= v < n && 0 <= t < r@[v].len() ==> #[trigger] r@[v]@[t].0 < n,
{
    let mut r: Vec<Vec<(usize, u64)>> = Vec::new();
    let mut v: usize = 0;
    while v < n
        invariant
            v <= n,
            r.len() == v,
            forall|q: int| 0 <= q < v ==> (#[trigger] r@[q]).len() == 0,
        decreases n - v,
    {
        r.push(Vec::new());
        v = v + 1;
    }
    let mut k: usize = 0;
    while k < springs.len()
        invariant
            k <= springs.len(),
            r.len() == n,
            forall|j: int| 0 <= j < springs.len() ==> (#[trigger] springs@[j]).0 < n && springs@[j].1 < n,
            forall|v: int, u: usize, w: u64|
                0 <= v < n ==> (#[trigger] r@[v]@.contains((u, w)) <==> spring_at(springs@.take(k as int), v as usize, u, w)),
            forall|v: int, t: int| 0 <= v < n && 0 <= t < r@[v].len() ==> #[trigger] r@[v]@[t].0 < n,
        decreases springs.len() - k,
    {
        let (a, b, w) = springs[k];
        let ghost before = r@;
        r[a].push((b, w));
        r[b].push((a, w));
        proof {
            assert forall|v: int, u: usize, x: u64| 0 <= v < n implies (#[trigger] r@[v]@.contains((u, x)) <==> spring_at(
                springs@.take(k + 1),
                v as usize,
                u,
                x,
            )) by {
                lemma_spring_at_take(springs@, k as int, v as usize, u, x);
                if v == a && v == b {
                    assert(r@[v]@ == before[v]@.push((b, w)).push((a, w)));
                } else if v == a {
                    assert(r@[v]@ == before[v]@.push((b, w)));
                } else if v == b {
                    assert(r@[v]@ == before[v]@.push((a, w)));
                } else {
                    assert(r@[v] == before[v]);
                }
                if r@[v]@.contains((u, x)) {
                    let t = choose|t: int| 0 <= t < r@[v]@.len() && r@[v]@[t] == (u, x);
                    if t < before[v]@.len() {
                        assert(before[v]@[t] == (u, x));
                    }
                }
                if before[v]@.contains((u, x)) {
                    let t = choose|t: int| 0 <= t < before[v]@.len() && before[v]@[t] == (u, x);
                    assert(r@[v]@[t] == (u, x));
                }
                if springs@[k as int] == (v as usize, u, x) {
                    assert(r@[v]@[before[v]@.len() as int] == (u, x));
                }
                if springs@[k as int] == (u, v as usize, x) {
                    assert(r@[v]@[r@[v]@.len() - 1] == (u, x));
                }
            }
            assert forall|v: int, t: int| 0 <= v < n && 0 <= t < r@[v].len() implies #[trigger] r@[v]@[t].0 < n by {
                if v == a || v == b {
                    if t < before[v].len() {
                        assert(r@[v]@[t] == before[v]@[t]);
                    }
                } else {
                    assert(r@[v] == before[v]);
                }
            }
        }
        k = k + 1;
    }
    proof {
        assert(springs@.take(springs.len() as int) =~= springs@);
    }
    r
}

proof fn lemma_spring_at_take(springs: Seq<(usize, usize, u64)>, k: int, v: usize, u: usize, w: u64)
    requires
        0 <= k < springs.len(),
    ensures
        spring_at(springs.take(k + 1), v, u, w) <==> (spring_at(springs.take(k), v, u, w) || springs[k] == (v, u, w)
            || springs[k] == (u, v, w)),
{
    let s1 = springs.take(k + 1);
    let s0 = springs.take(k);
    if spring_at(s1, v, u, w) {
        let j = choose|j: int| 0 <= j < s1.len() && (#[trigger] s1[j] == (v, u, w) || s1[j] == (u, v, w));
        if j < k {
            assert(s0[j] == s1[j]);
        }
    }
    if spring_at(s0, v, u, w) {
        let j = choose|j: int| 0 <= j < s0.len() && (#[trigger] s0[j] == (v, u, w) || s0[j] == (u, v, w));
        assert(s1[j] == s0[j]);
    }
    if springs[k] == (v, u, w) || springs[k] == (u, v, w) {
        assert(s1[k] == springs[k]);
    }
}

fn prefers(vu: u64, w: u64, u: usize, vu2: u64, w2: u64, u2: usize) -> (r: bool)
    ensures
        r == (vu < vu2 || vu == vu2 && (w > w2 || w == w2 && u < u2)),
{
    vu < vu2 || vu == vu2 && (w > w2 || w == w2 && u < u2)
}

/// The greedy matching: visiting the vertices in order, each unmatched one
/// is matched to its best unmatched neighbor.
fn match_greedily(n: usize, springs: &[(usize, usize, u64)], vw: &[u64], adj: &Vec<Vec<(usize, u64)>>) -> (r: Vec<
    Option<usize>,
>)
    requires
        vw.len() == n,
        adj.len() == n,
        forall|j: int| 0 <= j < springs.len() ==> (#[trigger] springs@[j]).0 < n && springs@[j].1 < n,
        forall|v: int, u: usize, w: u64|
            0 <= v < n ==> (#[trigger] adj@[v]@.contains((u, w)) <==> spring_at(springs@, v as usize, u, w)),
        forall|v: int, t: int| 0 <= v < n && 0 <= t < adj@[v].len() ==> #[trigger] adj@[v]@[t].0 < n,
    ensures
        r@ == greedy_matching(springs@, vw@, n as nat),
{
    let mut mate: Vec<Option<usize>> = Vec::new();
    let mut q: usize = 0;
    while q < n
        invariant
            q <= n,
            mate.len() == q,
            forall|x: int| 0 <= x < q ==> #[trigger] mate@[x] is None,
        decreases n - q,
    {
        mate.push(None);
        q = q + 1;
    }
    proof {
        assert(mate@ =~= matching_after(springs@, vw@, n as nat, 0));
    }
    let mut v: usize = 0;
    while v < n
        invariant
            v <= n,
            vw.len() == n,
            adj.len() == n,
            forall|j: int| 0 <= j < springs.len() ==> (#[trigger] springs@[j]).0 < n && springs@[j].1 < n,
            forall|v: int, u: usize, w: u64|
                0 <= v < n ==> (#[trigger] adj@[v]@.contains((u, w)) <==> spring_at(springs@, v as usize, u, w)),
            forall|v: int, t: int| 0 <= v < n && 0 <= t < adj@[v].len() ==> #[trigger] adj@[v]@[t].0 < n,
            mate@ == matching_after(springs@, vw@, n as nat, v as nat),
        decreases n - v,
    {
        proof {
            lemma_matching_wf(springs@, vw@, n as nat, v as nat);
        }
        if mate[v].is_none() {
            let ghost m = mate@;
            let mut best: Option<(usize, u64)> = None;
            let mut t: usize = 0;
            while t < adj[v].len()
                invariant
                    v < n,
                    vw.len() == n,
                    adj.len() == n,
                    mate@ == m,
                    m.len() == n,
                    forall|v: int, t: int| 0 <= v < n && 0 <= t < adj@[v].len() ==> #[trigger] adj@[v]@[t].0 < n,
                    forall|u: usize, w: u64| #[trigger] adj@[v as int]@.contains((u, w)) <==> spring_at(springs@, v, u, w),
                    t <= adj@[v as int].len(),
                    best is None ==> forall|s: int|
                        0 <= s < t ==> !(#[trigger] adj@[v as int]@[s].0 != v && m[adj@[v as int]@[s].0 as int] is None),
                    best matches Some(b) ==> b.0 < n && candidate(springs@, m, v, b.0, b.1) && forall|s: int|
                        0 <= s < t && #[trigger] adj@[v as int]@[s].0 != v && m[adj@[v as int]@[s].0 as int] is None ==> !prefer(
                            vw@,
                            adj@[v as int]@[s].0,
                            adj@[v as int]@[s].1,
                            b.0,
                            b.1,
                        ),
                decreases adj@[v as int].len() - t,
            {
                let (u, w) = adj[v][t];
                if u != v && mate[u].is_none() {
                    proof {
                        assert(adj@[v as int]@.contains((u, w)));
                    }
                    match best {
                        None => {
                            best = Some((u, w));
                        },
                        Some((bu, bw)) => {
                            if prefers(vw[u], w, u, vw[bu], bw, bu) {
                                best = Some((u, w));
                            }
                        },
                    }
                }
                t = t + 1;
            }
            proof {
                if let Some(b) = best {
                    assert forall|u2: usize, w2: u64| #[trigger] candidate(springs@, m, v, u2, w2) implies !prefer(vw@, u2, w2, b.0, b.1) by {
                        assert(adj@[v as int]@.contains((u2, w2)));
                        let s = choose|s: int| 0 <= s < adj@[v as int]@.len() && adj@[v as int]@[s] == (u2, w2);
                        assert(adj@[v as int]@[s].0 != v && m[adj@[v as int]@[s].0 as int] is None);
                    }
                    lemma_best_unique(springs@, vw@, m, v, b.0, b.1);
                } else {
                    assert forall|u2: usize, w2: u64| !#[trigger] best_candidate(springs@, vw@, m, v, u2, w2) by {
                        if candidate(springs@, m, v, u2, w2) {
                            assert(adj@[v as int]@.contains((u2, w2)));
                            let s = choose|s: int| 0 <= s < adj@[v as int]@.len() && adj@[v as int]@[s] == (u2, w2);
                            assert(adj@[v as int]@[s].0 != v && m[adj@[v as int]@[s].0 as int] is None);
                        }
                    }
                }
            }
            if let Some((u, _)) = best {
                mate.set(v, Some(u));
                mate.set(u, Some(v));
            }
        }
        v = v + 1;
    }
    mate
}

/// Vertex `x` names a class of the matching: it is unmatched, or the smaller
/// of its pair.
pub open spec fn leads(m: Seq<Option<usize>>, x: int) -> bool {
    m[x] is None || m[x]->Some_0 > x
}

/// The number of class names below `k`.
pub open spec fn leaders_below(m: Seq<Option<usize>>, k: int) -> int
    decreases k,
{
    if k <= 0 {
        0
    } else {
        leaders_below(m, k - 1) + if leads(m, k - 1) {
            1int
        } else {
            0
        }
    }
}

/// The name of the class of `x`: the smaller vertex of its pair.
pub open spec fn class_leader(m: Seq<Option<usize>>, x: int) -> int {
    if m[x] is Some && m[x]->Some_0 < x {
        m[x]->Some_0 as int
    } else {
        x
    }
}

/// The coarse vertex of each vertex: classes are numbered from 0 in the
/// order of their names.
pub open spec fn classes(m: Seq<Option<usize>>) -> Seq<usize> {
    Seq::new(m.len(), |x: int| leaders_below(m, class_leader(m, x)) as usize)
}

/// The total weight of the vertices below `k` in class `c`.
pub open spec fn class_weight(vw: Seq<u64>, co: Seq<usize>, c: int, k: int) -> int
    decreases k,
{
    if k <= 0 {
        0
    } else {
        class_weight(vw, co, c, k - 1) + if co[k - 1] == c {
            vw[k - 1] as int
        } else {
            0
        }
    }
}

/// The springs between different classes, each keyed by its pair of
/// classes, smaller first, with its weight.
pub open spec fn coarse_pairs(springs: Seq<(usize, usize, u64)>, co: Seq<usize>) -> Seq<((usize, usize), u64)>
    decreases springs.len(),
{
    if springs.len() == 0 {
        Seq::empty()
    } else {
        let p = coarse_pairs(springs.drop_last(), co);
        let s = springs.last();
        let ca = co[s.0 as int];
        let cb = co[s.1 as int];
        if ca != cb {
            p.push(
                (
                    if ca < cb {
                        (ca, cb)
                    } else {
                        (cb, ca)
                    },
                    s.2,
                ),
            )
        } else {
            p
        }
    }
}

proof fn lemma_leaders_step(m: Seq<Option<usize>>, k: int)
    requires
        0 <= k,
    ensures
        leaders_below(m, k) <= leaders_below(m, k + 1) <= leaders_below(m, k) + 1,
        0 <= leaders_below(m, k) <= k,
    decreases k,
{
    if k > 0 {
        lemma_leaders_step(m, k - 1);
    }
}

/// Numbers the classes of a matching: each vertex gets the number of its
/// class, classes numbered in the order of their smaller vertex.
fn number_classes(mate: &Vec<Option<usize>>) -> (r: (Vec<usize>, usize))
    requires
        forall|x: int|
            0 <= x < mate.len() && (#[trigger] mate@[x]) is Some ==> mate@[x]->Some_0 < mate.len() && mate@[x]->Some_0 != x
                && mate@[mate@[x]->Some_0 as int] == Some(x as usize),
    ensures
        r.0@ == classes(mate@),
        r.1 == leaders_below(mate@, mate.len() as int),
        forall|x: int| 0 <= x < mate.len() ==> #[trigger] r.0@[x] < r.1,
{
    let n = mate.len();
    let ghost m = mate@;
    let mut co: Vec<usize> = Vec::new();
    let mut q: usize = 0;
    while q < n
        invariant
            q <= n,
            co.len() == q,
            forall|x: int| 0 <= x < q ==> #[trigger] co@[x] == usize::MAX,
        decreases n - q,
    {
        co.push(usize::MAX);
        q = q + 1;
    }
    let mut next: usize = 0;
    let mut v: usize = 0;
    while v < n
        invariant
            v <= n,
            n == mate.len(),
            m == mate@,
            co.len() == n,
            forall|x: int|
                0 <= x < n && (#[trigger] m[x]) is Some ==> m[x]->Some_0 < n && m[x]->Some_0 != x && m[m[x]->Some_0 as int]
                    == Some(x as usize),
            next == leaders_below(m, v as int),
            forall|x: int| 0 <= x < n ==> (#[trigger] co@[x] != usize::MAX <==> (x < v || m[x] is Some && m[x]->Some_0 < v)),
            forall|x: int| 0 <= x < n && #[trigger] co@[x] != usize::MAX ==> co@[x] == leaders_below(m, class_leader(m, x))
                && co@[x] < next,
        decreases n - v,
    {
        proof {
            lemma_leaders_step(m, v as int);
        }
        if co[v] == usize::MAX {
            proof {
                assert(leads(m, v as int)) by {
                    if m[v as int] is Some {
                        assert(m[v as int]->Some_0 != v);
                    }
                }
            }
            co.set(v, next);
            if let Some(u) = mate[v] {
                proof {
                    assert(m[u as int] == Some(v));
                    assert(class_leader(m, u as int) == v);
                }
                co.set(u, next);
            }
            next = next + 1;
        } else {
            proof {
                assert(m[v as int] is Some && m[v as int]->Some_0 < v);
            }
        }
        v = v + 1;
    }
    proof {
        assert forall|x: int| 0 <= x < n implies #[trigger] co@[x] == classes(m)[x] by {
            assert(co@[x] != usize::MAX);
        }
        assert(co@ =~= classes(m));
    }
    (co, next)
}

proof fn lemma_class_weight_bound(vw: Seq<u64>, co: Seq<usize>, c: int, k: int)
    requires
        0 <= k,
    ensures
        0 <= class_weight(vw, co, c, k) <= weight_total(vw, k),
    decreases k,
{
    if k > 0 {
        lemma_class_weight_bound(vw, co, c, k - 1);
    }
}

/// The total vertex weight of each class.
fn class_weights(vw: &[u64], co: &Vec<usize>, count: usize) -> (r: Vec<u64>)
    requires
        co.len() == vw.len(),
        forall|x: int| 0 <= x < co.len() ==> #[trigger] co@[x] < count,
        weight_total(vw@, vw.len() as int) <= u64::MAX,
    ensures
        r.len() == count,
        forall|c: int| 0 <= c < count ==> #[trigger] r@[c] == class_weight(vw@, co@, c, vw.len() as int),
{
    let mut r: Vec<u64> = Vec::new();
    let mut q: usize = 0;
    while q < count
        invariant
            q <= count,
            r.len() == q,
            forall|c: int| 0 <= c < q ==> #[trigger] r@[c] == 0,
        decreases count - q,
    {
        r.push(0);
        q = q + 1;
    }
    let mut v: usize = 0;
    while v < vw.len()
        invariant
            v <= vw.len(),
            co.len() == vw.len(),
            r.len() == count,
            forall|x: int| 0 <= x < co.len() ==> #[trigger] co@[x] < count,
            weight_total(vw@, vw.len() as int) <= u64::MAX,
            forall|c: int| 0 <= c < count ==> #[trigger] r@[c] == class_weight(vw@, co@, c, v as int),
        decreases vw.len() - v,
    {
        let c = co[v];
        proof {
            lemma_class_weight_bound(vw@, co@, c as int, v + 1);
            lemma_weight_total_prefix(vw@, v + 1, vw.len() as int);
        }
        let cur = r[c];
        r.set(c, cur + vw[v]);
        v = v + 1;
    }
    r
}

proof fn lemma_weight_total_prefix(vw: Seq<u64>, k: int, n: int)
    requires
        0 <= k <= n,
    ensures
        weight_total(vw, k) <= weight_total(vw, n),
    decreases n - k,
{
    if k < n {
        lemma_weight_total_prefix(vw, k, n - 1);
    }
}

proof fn lemma_coarse_pairs_total(springs: Seq<(usize, usize, u64)>, co: Seq<usize>)
    ensures
        total_weight(coarse_pairs(springs, co)) <= spring_total(springs),
    decreases springs.len(),
{
    if springs.len() > 0 {
        lemma_coarse_pairs_total(springs.drop_last(), co);
        let p = coarse_pairs(springs.drop_last(), co);
        let s = springs.last();
        if co[s.0 as int] != co[s.1 as int] {
            let q = coarse_pairs(springs, co);
            assert(q.drop_last() == p);
        }
    }
}

/// The springs between classes, keyed by class pair.
fn class_pairs(springs: &[(usize, usize, u64)], co: &Vec<usize>) -> (r: Vec<((usize, usize), u64)>)
    requires
        forall|j: int| 0 <= j < springs.len() ==> (#[trigger] springs@[j]).0 < co.len() && springs@[j].1 < co.len(),
    ensures
        r@ == coarse_pairs(springs@, co@),
{
    let mut r: Vec<((usize, usize), u64)> = Vec::new();
    let mut k: usize = 0;
    while k < springs.len()
        invariant
            k <= springs.len(),
            forall|j: int| 0 <= j < springs.len() ==> (#[trigger] springs@[j]).0 < co.len() && springs@[j].1 < co.len(),
            r@ == coarse_pairs(springs@.take(k as int), co@),
        decreases springs.len() - k,
    {
        let (a, b, w) = springs[k];
        let ca = co[a];
        let cb = co[b];
        proof {
            assert(springs@.take(k + 1).drop_last() =~= springs@.take(k as int));
            assert(springs@.take(k + 1).last() == springs@[k as int]);
        }
        if ca != cb {
            if ca < cb {
                r.push(((ca, cb), w));
            } else {
                r.push(((cb, ca), w));
            }
        }
        k = k + 1;
    }
    proof {
        assert(springs@.take(springs.len() as int) =~= springs@);
    }
    r
}

/// The independent set after visiting the vertices below `k` in order: a
/// vertex joins unless an earlier member is its neighbor.
pub open spec fn independent_after(springs: Seq<(usize, usize)>, n: nat, k: nat) -> Seq<bool>
    decreases k,
{
    if k == 0 {
        Seq::new(n, |i: int| false)
    } else {
        let s = independent_after(springs, n, (k - 1) as nat);
        let v = k - 1;
        s.update(v, !exists|u: int| 0 <= u < v && #[trigger] s[u] && adjacent(springs, u, v))
    }
}

/// The greedy maximal independent set of the vertices `0..n`.
pub open spec fn independent_set(springs: Seq<(usize, usize)>, n: nat) -> Seq<bool> {
    independent_after(springs, n, n)
}

/// The number of members below `k`: the coarse number of a member at `k`.
pub open spec fn count_true(s: Seq<bool>, k: int) -> int
    decreases k,
{
    if k <= 0 {
        0
    } else {
        count_true(s, k - 1) + if s[k - 1] {
            1int
        } else {
            0
        }
    }
}

/// `key` joins the coarse numbers of two members at most three springs
/// apart, smaller number first.
pub open spec fn near_pair(springs: Seq<(usize, usize)>, s: Seq<bool>, key: (usize, usize)) -> bool {
    exists|v: int, w: int|
        0 <= v < s.len() && 0 <= w < s.len() && s[v] && s[w] && #[trigger] within_hops(springs, v, w, 3) && count_true(s, v)
            < count_true(s, w) && key == (count_true(s, v) as usize, count_true(s, w) as usize)
}

proof fn lemma_count_step(s: Seq<bool>, k: int)
    requires
        0 <= k,
    ensures
        0 <= count_true(s, k) <= k,
        count_true(s, k) <= count_true(s, k + 1),
    decreases k,
{
    if k > 0 {
        lemma_count_step(s, k - 1);
    }
}

proof fn lemma_independent_len(springs: Seq<(usize, usize)>, n: nat, k: nat)
    requires
        k <= n,
    ensures
        independent_after(springs, n, k).len() == n,
        forall|x: int| k <= x < n ==> !#[trigger] independent_after(springs, n, k)[x],
    decreases k,
{
    if k > 0 {
        lemma_independent_len(springs, n, (k - 1) as nat);
    }
}

/// The greedy maximal independent set.
fn select_independent(n: usize, Ghost(springs): Ghost<Seq<(usize, usize)>>, adj: &Vec<Vec<usize>>) -> (r: Vec<bool>)
    requires
        adj.len() == n,
        forall|u: int, w: usize| 0 <= u < n ==> (#[trigger] adj@[u]@.contains(w) <==> adjacent(springs, u, w as int)),
        forall|u: int, t: int| 0 <= u < n && 0 <= t < adj@[u].len() ==> #[trigger] adj@[u]@[t] < n,
        forall|j: int| 0 <= j < springs.len() ==> (#[trigger] springs[j]).0 < n && springs[j].1 < n,
    ensures
        r@ == independent_set(springs, n as nat),
{
    let mut in_set: Vec<bool> = Vec::new();
    let mut blocked: Vec<bool> = Vec::new();
    let mut q: usize = 0;
    while q < n
        invariant
            q <= n,
            in_set.len() == q,
            blocked.len() == q,
            forall|x: int| 0 <= x < q ==> !(#[trigger] in_set@[x]) && !blocked@[x],
        decreases n - q,
    {
        in_set.push(false);
        blocked.push(false);
        q = q + 1;
    }
    proof {
        assert(in_set@ =~= independent_after(springs, n as nat, 0));
        assert forall|x: int| 0 <= x < n implies !(#[trigger] blocked@[x]) by {
            assert(!in_set@[x]);
        }
    }
    let mut v: usize = 0;
    while v < n
        invariant
            v <= n,
            adj.len() == n,
            blocked.len() == n,
            in_set.len() == n,
            forall|u: int, w: usize| 0 <= u < n ==> (#[trigger] adj@[u]@.contains(w) <==> adjacent(springs, u, w as int)),
            forall|u: int, t: int| 0 <= u < n && 0 <= t < adj@[u].len() ==> #[trigger] adj@[u]@[t] < n,
            forall|j: int| 0 <= j < springs.len() ==> (#[trigger] springs[j]).0 < n && springs[j].1 < n,
            in_set@ == independent_after(springs, n as nat, v as nat),
            forall|x: int|
                0 <= x < n ==> (#[trigger] blocked@[x] <==> exists|u: int| 0 <= u < v && in_set@[u] && adjacent(springs, u, x)),
        decreases n - v,
    {
        let ghost s = in_set@;
        proof {
            lemma_independent_len(springs, n as nat, v as nat);
            lemma_independent_len(springs, n as nat, (v + 1) as nat);
            assert(!s[v as int]);
        }
        if !blocked[v] {
            in_set.set(v, true);
            let ghost b0 = blocked@;
            let mut t: usize = 0;
            while t < adj[v].len()
                invariant
                    v < n,
                    adj.len() == n,
                    blocked.len() == n,
                    forall|u: int, t: int| 0 <= u < n && 0 <= t < adj@[u].len() ==> #[trigger] adj@[u]@[t] < n,
                    t <= adj@[v as int].len(),
                    forall|x: int|
                        0 <= x < n ==> (#[trigger] blocked@[x] <==> b0[x] || exists|q: int| 0 <= q < t && adj@[v as int]@[q] == x),
                decreases adj@[v as int].len() - t,
            {
                let u = adj[v][t];
                let ghost before = blocked@;
                blocked.set(u, true);
                proof {
                    assert forall|x: int| 0 <= x < n implies (#[trigger] blocked@[x] <==> b0[x] || exists|q: int|
                        0 <= q < t + 1 && adj@[v as int]@[q] == x) by {
                        if x == u {
                            assert(adj@[v as int]@[t as int] == x);
                        } else {
                            assert(blocked@[x] == before[x]);
                            if exists|q: int| 0 <= q < t + 1 && adj@[v as int]@[q] == x {
                                let q = choose|q: int| 0 <= q < t + 1 && adj@[v as int]@[q] == x;
                                assert(q < t);
                            }
                        }
                    }
                }
                t = t + 1;
            }
            proof {
                let s1 = s.update(v as int, true);
                assert(in_set@ == s1);
                assert(in_set@ == independent_after(springs, n as nat, (v + 1) as nat));
                assert forall|x: int| 0 <= x < n implies (#[trigger] blocked@[x] <==> exists|u: int|
                    0 <= u < v + 1 && in_set@[u] && adjacent(springs, u, x)) by {
                    if exists|q: int| 0 <= q < adj@[v as int].len() && adj@[v as int]@[q] == x {
                        let q = choose|q: int| 0 <= q < adj@[v as int].len() && adj@[v as int]@[q] == x;
                        assert(adj@[v as int]@.contains(x as usize));
                        assert(adjacent(springs, v as int, x));
                    }
                    if adjacent(springs, v as int, x) {
                        assert(adj@[v as int]@.contains(x as usize));
                        let q = choose|q: int| 0 <= q < adj@[v as int].len() && adj@[v as int]@[q] == x as usize;
                    }
                    if exists|u: int| 0 <= u < v && in_set@[u] && adjacent(springs, u, x) {
                        let u = choose|u: int| 0 <= u < v && in_set@[u] && adjacent(springs, u, x);
                        assert(s[u]);
                    }
                    if exists|u: int| 0 <= u < v && s[u] && adjacent(springs, u, x) {
                        let u = choose|u: int| 0 <= u < v && s[u] && adjacent(springs, u, x);
                        assert(in_set@[u]);
                    }
                }
            }
        } else {
            proof {
                assert(in_set@ =~= independent_after(springs, n as nat, (v + 1) as nat));
                assert forall|x: int| 0 <= x < n implies (#[trigger] blocked@[x] <==> exists|u: int|
                    0 <= u < v + 1 && in_set@[u] && adjacent(springs, u, x)) by {
                    if exists|u: int| 0 <= u < v + 1 && in_set@[u] && adjacent(springs, u, x) {
                        let u = choose|u: int| 0 <= u < v + 1 && in_set@[u] && adjacent(springs, u, x);
                        assert(u != v);
                    }
                }
            }
        }
        v = v + 1;
    }
    in_set
}

/// The coarse number of each member of the independent set, and how many
/// members there are.
fn number_members(s: &Vec<bool>) -> (r: (Vec<Option<usize>>, usize))
    ensures
        r.0@ == Seq::new(s.len() as nat, |x: int| if s@[x] { Some(count_true(s@, x) as usize) } else { None }),
        r.1 == count_true(s@, s.len() as int),
{
    let mut co: Vec<Option<usize>> = Vec::new();
    let mut next: usize = 0;
    let mut v: usize = 0;
    while v < s.len()
        invariant
            v <= s.len(),
            co.len() == v,
            next == count_true(s@, v as int),
            forall|x: int| 0 <= x < v ==> #[trigger] co@[x] == if s@[x] { Some(count_true(s@, x) as usize) } else { None },
        decreases s.len() - v,
    {
        proof {
            lemma_count_step(s@, v as int);
        }
        if s[v] {
            co.push(Some(next));
            next = next + 1;
        } else {
            co.push(None);
        }
        v = v + 1;
    }
    proof {
        assert(co@ =~= Seq::new(s.len() as nat, |x: int| if s@[x] { Some(count_true(s@, x) as usize) } else { None }));
    }
    (co, next)
}

proof fn lemma_unit_total(pairs: Seq<((usize, usize), u64)>)
    requires
        forall|i: int| 0 <= i < pairs.len() ==> (#[trigger] pairs[i]).1 == 1,
    ensures
        total_weight(pairs) == pairs.len(),
    decreases pairs.len(),
{
    if pairs.len() > 0 {
        let p = pairs.drop_last();
        assert forall|i: int| 0 <= i < p.len() implies (#[trigger] p[i]).1 == 1 by {
            assert(p[i] == pairs[i]);
        }
        lemma_unit_total(p);
    }
}

/// The coarse springs of the independent set: members at most three springs
/// apart are joined, each pair once, in order, with weight 1.
fn near_springs(
    adj: &Vec<Vec<usize>>,
    Ghost(springs): Ghost<Seq<(usize, usize)>>,
    s: &Vec<bool>,
    co: &Vec<Option<usize>>,
) -> (r: Vec<(usize, usize, u64)>)
    requires
        adj.len() < usize::MAX,
        s.len() == adj.len(),
        co@ == Seq::new(s.len() as nat, |x: int| if s@[x] { Some(count_true(s@, x) as usize) } else { None }),
        forall|j: int| 0 <= j < springs.len() ==> (#[trigger] springs[j]).0 < adj.len() && springs[j].1 < adj.len(),
        forall|u: int, w: usize| 0 <= u < adj.len() ==> (#[trigger] adj@[u]@.contains(w) <==> adjacent(springs, u, w as int)),
        forall|u: int, t: int| 0 <= u < adj.len() && 0 <= t < adj@[u].len() ==> #[trigger] adj@[u]@[t] < adj.len(),
    ensures
        keys_rising(r@),
        forall|i: int| 0 <= i < r.len() ==> (#[trigger] r@[i]).2 == 1,
        forall|key: (usize, usize)|
            #[trigger] near_pair(springs, s@, key) <==> exists|i: int| 0 <= i < r.len() && (#[trigger] r@[i].0, r@[i].1) == key,
{
    let n = adj.len();
    let mut dist: Vec<usize> = Vec::new();
    let mut q: usize = 0;
    while q < n
        invariant
            q <= n,
            dist.len() == q,
            forall|x: int| 0 <= x < q ==> #[trigger] dist@[x] == usize::MAX,
        decreases n - q,
    {
        dist.push(usize::MAX);
        q = q + 1;
    }
    let mut pairs: Vec<((usize, usize), u64)> = Vec::new();
    let mut v: usize = 0;
    while v < n
        invariant
            v <= n,
            n == adj.len() < usize::MAX,
            s.len() == n,
            co@ == Seq::new(s.len() as nat, |x: int| if s@[x] { Some(count_true(s@, x) as usize) } else { None }),
            forall|j: int| 0 <= j < springs.len() ==> (#[trigger] springs[j]).0 < n && springs[j].1 < n,
            forall|u: int, w: usize| 0 <= u < n ==> (#[trigger] adj@[u]@.contains(w) <==> adjacent(springs, u, w as int)),
            forall|u: int, t: int| 0 <= u < n && 0 <= t < adj@[u].len() ==> #[trigger] adj@[u]@[t] < n,
            dist.len() == n,
            forall|x: int| 0 <= x < n ==> #[trigger] dist@[x] == usize::MAX,
            forall|i: int| 0 <= i < pairs.len() ==> (#[trigger] pairs@[i]).1 == 1,
            forall|key: (usize, usize)|
                #[trigger] has_key(pairs@, key) <==> exists|a: int, w: int|
                    0 <= a < v && 0 <= w < n && s@[a] && s@[w] && #[trigger] within_hops(springs, a, w, 3) && count_true(s@, a)
                        < count_true(s@, w) && key == (count_true(s@, a) as usize, count_true(s@, w) as usize),
        decreases n - v,
    {
        proof {
            lemma_count_step(s@, v as int);
            assert forall|x: int| 0 <= x < n implies 0 <= #[trigger] count_true(s@, x) <= x by {
                lemma_count_step(s@, x);
            }
        }
        if let Some(cv) = co[v] {
            let order = search_within(adj, Ghost(springs), &mut dist, v, 3);
            let ghost p0 = pairs@;
            let mut i: usize = 0;
            while i < order.len()
                invariant
                    i <= order.len(),
                    v < n,
                    s.len() == n,
                    s@[v as int],
                    cv == count_true(s@, v as int),
                    co@ == Seq::new(s.len() as nat, |x: int| if s@[x] { Some(count_true(s@, x) as usize) } else { None }),
                    forall|k: int| 0 <= k < order.len() ==> (#[trigger] order@[k]) < n,
                    forall|i: int| 0 <= i < pairs.len() ==> (#[trigger] pairs@[i]).1 == 1,
                    forall|key: (usize, usize)|
                        #[trigger] has_key(pairs@, key) <==> has_key(p0, key) || exists|k: int|
                            0 <= k < i && s@[order@[k] as int] && cv < count_true(s@, order@[k] as int) && key == (
                                cv,
                                count_true(s@, #[trigger] order@[k] as int) as usize,
                            ),
                decreases order.len() - i,
            {
                let w = order[i];
                let ghost pb = pairs@;
                proof {
                    lemma_count_step(s@, w as int);
                }
                if let Some(cw) = co[w] {
                    if cw > cv {
                        pairs.push(((cv, cw), 1));
                    }
                }
                proof {
                    assert forall|i2: int| 0 <= i2 < pairs.len() implies (#[trigger] pairs@[i2]).1 == 1 by {
                        if i2 < pb.len() {
                            assert(pairs@[i2] == pb[i2]);
                        }
                    }
                    assert forall|key: (usize, usize)| #[trigger] has_key(pairs@, key) <==> has_key(p0, key) || exists|k: int|
                        0 <= k < i + 1 && s@[order@[k] as int] && cv < count_true(s@, order@[k] as int) && key == (
                            cv,
                            count_true(s@, #[trigger] order@[k] as int) as usize,
                        ) by {
                        if has_key(pairs@, key) {
                            let j = choose|j: int| 0 <= j < pairs@.len() && (#[trigger] pairs@[j]).0 == key;
                            if j < pb.len() {
                                assert(pb[j] == pairs@[j]);
                                assert(has_key(pb, key));
                            } else {
                                assert(s@[order@[i as int] as int]);
                            }
                        }
                        if has_key(pb, key) {
                            let j = choose|j: int| 0 <= j < pb.len() && (#[trigger] pb[j]).0 == key;
                            assert(pairs@[j] == pb[j]);
                        }
                        if exists|k: int|
                            0 <= k < i + 1 && s@[order@[k] as int] && cv < count_true(s@, order@[k] as int) && key == (
                                cv,
                                count_true(s@, #[trigger] order@[k] as int) as usize,
                            ) {
                            let k = choose|k: int|
                                0 <= k < i + 1 && s@[order@[k] as int] && cv < count_true(s@, order@[k] as int) && key == (
                                    cv,
                                    count_true(s@, #[trigger] order@[k] as int) as usize,
                                );
                            if k == i {
                                assert(pairs@[pairs@.len() - 1].0 == key);
                            }
                        }
                    }
                }
                i = i + 1;
            }
            proof {
                assert forall|key: (usize, usize)| #[trigger] has_key(pairs@, key) <==> exists|a: int, w: int|
                    0 <= a < v + 1 && 0 <= w < n && s@[a] && s@[w] && #[trigger] within_hops(springs, a, w, 3) && count_true(s@, a)
                        < count_true(s@, w) && key == (count_true(s@, a) as usize, count_true(s@, w) as usize) by {
                    if exists|k: int|
                        0 <= k < order.len() && s@[order@[k] as int] && cv < count_true(s@, order@[k] as int) && key == (
                            cv,
                            count_true(s@, #[trigger] order@[k] as int) as usize,
                        ) {
                        let k = choose|k: int|
                            0 <= k < order.len() && s@[order@[k] as int] && cv < count_true(s@, order@[k] as int) && key == (
                                cv,
                                count_true(s@, #[trigger] order@[k] as int) as usize,
                            );
                        let w = order@[k] as int;
                        assert(order@.contains(w as usize));
                        assert(dist@[w] != usize::MAX);
                        assert(crate::distance::hop_distance(springs, v as int, w, dist@[w] as int) && dist@[w] <= 3);
                        crate::distance::lemma_within_more(springs, v as int, w, dist@[w] as int, 3);
                        assert(within_hops(springs, v as int, w, 3));
                    }
                    if exists|a: int, w: int|
                        0 <= a < v + 1 && 0 <= w < n && s@[a] && s@[w] && #[trigger] within_hops(springs, a, w, 3) && count_true(s@, a)
                            < count_true(s@, w) && key == (count_true(s@, a) as usize, count_true(s@, w) as usize) {
                        let (a, w) = choose|a: int, w: int|
                            0 <= a < v + 1 && 0 <= w < n && s@[a] && s@[w] && #[trigger] within_hops(springs, a, w, 3) && count_true(s@, a)
                                < count_true(s@, w) && key == (count_true(s@, a) as usize, count_true(s@, w) as usize);
                        if a == v {
                            assert(dist@[w] != usize::MAX);
                            assert(order@.contains(w as usize));
                            let k = choose|k: int| 0 <= k < order.len() && order@[k] == w as usize;
                            assert(order@[k] as int == w);
                        }
                    }
                }
            }
            let mut j: usize = 0;
            while j < order.len()
                invariant
                    j <= order.len(),
                    dist.len() == n,
                    forall|k: int| 0 <= k < order.len() ==> (#[trigger] order@[k]) < n,
                    forall|x: int| 0 <= x < n && #[trigger] dist@[x] != usize::MAX ==> exists|k: int|
                        j <= k < order.len() && order@[k] == x,
                decreases order.len() - j,
            {
                let x = order[j];
                let ghost d0 = dist@;
                dist.set(x, usize::MAX);
                proof {
                    assert forall|y: int| 0 <= y < n && #[trigger] dist@[y] != usize::MAX implies exists|k: int|
                        j + 1 <= k < order.len() && order@[k] == y by {
                        assert(d0[y] != usize::MAX);
                        let k = choose|k: int| j <= k < order.len() && order@[k] == y;
                        assert(k != j);
                    }
                }
                j = j + 1;
            }
        } else {
            proof {
                assert forall|key: (usize, usize)| #[trigger] has_key(pairs@, key) <==> exists|a: int, w: int|
                    0 <= a < v + 1 && 0 <= w < n && s@[a] && s@[w] && #[trigger] within_hops(springs, a, w, 3) && count_true(s@, a)
                        < count_true(s@, w) && key == (count_true(s@, a) as usize, count_true(s@, w) as usize) by {
                    if exists|a: int, w: int|
                        0 <= a < v + 1 && 0 <= w < n && s@[a] && s@[w] && #[trigger] within_hops(springs, a, w, 3) && count_true(s@, a)
                            < count_true(s@, w) && key == (count_true(s@, a) as usize, count_true(s@, w) as usize) {
                        let (a, w) = choose|a: int, w: int|
                            0 <= a < v + 1 && 0 <= w < n && s@[a] && s@[w] && #[trigger] within_hops(springs, a, w, 3) && count_true(s@, a)
                                < count_true(s@, w) && key == (count_true(s@, a) as usize, count_true(s@, w) as usize);
                        assert(a != v);
                    }
                }
            }
        }
        v = v + 1;
    }
    let count = pairs.len();
    proof {
        lemma_unit_total(pairs@);
        assert(pairs@.len() == count);
        assert(usize::MAX <= u64::MAX);
    }
    let merged_pairs = merge_weighted(&pairs);
    let mut r: Vec<(usize, usize, u64)> = Vec::new();
    let mut k: usize = 0;
    while k < merged_pairs.len()
        invariant
            k <= merged_pairs.len(),
            r.len() == k,
            forall|i: int| 0 <= i < k ==> #[trigger] r@[i] == (merged_pairs@[i].0, merged_pairs@[i].1, 1u64),
        decreases merged_pairs.len() - k,
    {
        let (a, b, _) = merged_pairs[k];
        r.push((a, b, 1));
        k = k + 1;
    }
    proof {
        assert forall|i: int, j: int| 0 <= i < j < r.len() implies pair_lt((#[trigger] r@[i].0, r@[i].1), (#[trigger] r@[j].0, r@[j].1)) by {
            assert(pair_lt((merged_pairs@[i].0, merged_pairs@[i].1), (merged_pairs@[j].0, merged_pairs@[j].1)));
        }
        assert forall|key: (usize, usize)| #[trigger] near_pair(springs, s@, key) <==> exists|i: int|
            0 <= i < r.len() && (#[trigger] r@[i].0, r@[i].1) == key by {
            assert(has_key(pairs@, key) <==> near_pair(springs, s@, key));
            if exists|i: int| 0 <= i < r.len() && (#[trigger] r@[i].0, r@[i].1) == key {
                let i = choose|i: int| 0 <= i < r.len() && (#[trigger] r@[i].0, r@[i].1) == key;
                assert((merged_pairs@[i].0, merged_pairs@[i].1) == key);
            }
            if exists|i: int| 0 <= i < merged_pairs.len() && (#[trigger] merged_pairs@[i].0, merged_pairs@[i].1) == key {
                let i = choose|i: int| 0 <= i < merged_pairs.len() && (#[trigger] merged_pairs@[i].0, merged_pairs@[i].1) == key;
                assert((r@[i].0, r@[i].1) == key);
            }
        }
    }
    r
}

/// How the vertices of a level map to the next coarser level.
pub enum CoarsePlan {
    /// The pairs of a matching collapse: every vertex maps to the coarse
    /// vertex of its pair.
    Matching { coarse_of: Vec<usize> },
    /// Only the members of an independent set map to coarse vertices.
    IndependentSet { coarse_of: Vec<Option<usize>> },
}

/// The next coarser level: its vertex count, springs (by pair of coarse
/// vertices, in order, with weights) and vertex weights, and how the finer
/// vertices map to it.
pub struct Coarse {
    pub n: usize,
    pub springs: Vec<(usize, usize, u64)>,
    pub weights: Vec<u64>,
    pub plan: CoarsePlan,
}

/// The number of coarse vertices that collapsing the greedy matching gives.
pub open spec fn matched_size(springs: Seq<(usize, usize, u64)>, vw: Seq<u64>, n: nat) -> int {
    leaders_below(greedy_matching(springs, vw, n), n as int)
}

/// The number of members of the greedy independent set.
pub open spec fn independent_size(springs: Seq<(usize, usize, u64)>, n: nat) -> int {
    count_true(independent_set(unweighted(springs), n), n as int)
}

/// `c` collapses the matching `m`: one coarse vertex per class, weighing
/// the class's vertices, and the springs between classes merged by class
/// pair with their weights summed.
pub open spec fn matched_level(springs: Seq<(usize, usize, u64)>, vw: Seq<u64>, m: Seq<Option<usize>>, c: Coarse) -> bool {
    let co = classes(m);
    &&& c.n == leaders_below(m, m.len() as int)
    &&& c.plan matches CoarsePlan::Matching { coarse_of } && coarse_of@ == co
    &&& c.weights@.len() == c.n
    &&& forall|k: int| 0 <= k < c.n ==> #[trigger] c.weights@[k] == class_weight(vw, co, k, m.len() as int)
    &&& merged(coarse_pairs(springs, co), c.springs@)
}

/// `c` keeps the members of the independent set `s`, numbered in order,
/// each of weight 1, and joins members at most three springs apart by one
/// spring of weight 1.
pub open spec fn independent_level(springs: Seq<(usize, usize, u64)>, s: Seq<bool>, c: Coarse) -> bool {
    &&& c.n == count_true(s, s.len() as int)
    &&& c.plan matches CoarsePlan::IndependentSet { coarse_of } && coarse_of@ == Seq::new(
        s.len(),
        |x: int|
            if s[x] {
                Some(count_true(s, x) as usize)
            } else {
                None
            },
    )
    &&& c.weights@ == Seq::new(c.n as nat, |k: int| 1u64)
    &&& keys_rising(c.springs@)
    &&& forall|i: int| 0 <= i < c.springs@.len() ==> (#[trigger] c.springs@[i]).2 == 1
    &&& forall|key: (usize, usize)|
        #[trigger] near_pair(unweighted(springs), s, key) <==> exists|i: int|
            0 <= i < c.springs@.len() && (#[trigger] c.springs@[i].0, c.springs@[i].1) == key
}

/// Coarsens the graph on the vertices `0..n` with weighted `springs` and
/// vertex weights `vertex_weights`. Collapsing the greedy matching (each
/// vertex, in order, if still unmatched, takes its unmatched neighbor of
/// least weight, then over the heaviest spring, then of least index) is
/// used when it leaves at most three quarters of the vertices; otherwise
/// the greedy maximal independent set, when it has at least two members and
/// leaves at most three quarters; otherwise there is no coarser level.
#[verifier::spinoff_prover]
pub fn coarsen(n: usize, springs: &[(usize, usize, u64)], vertex_weights: &[u64]) -> (r: Option<Coarse>)
    requires
        n < usize::MAX,
        vertex_weights.len() == n,
        forall|j: int| 0 <= j < springs.len() ==> (#[trigger] springs@[j]).0 < n && springs@[j].1 < n,
        weight_total(vertex_weights@, n as int) <= u64::MAX,
        spring_total(springs@) <= u64::MAX,
    ensures
        4 * matched_size(springs@, vertex_weights@, n as nat) <= 3 * n ==> (r matches Some(c) && matched_level(
            springs@,
            vertex_weights@,
            greedy_matching(springs@, vertex_weights@, n as nat),
            c,
        )),
        4 * matched_size(springs@, vertex_weights@, n as nat) > 3 * n && (4 * independent_size(springs@, n as nat) > 3 * n
            || independent_size(springs@, n as nat) < 2) ==> r is None,
        4 * matched_size(springs@, vertex_weights@, n as nat) > 3 * n && 4 * independent_size(springs@, n as nat) <= 3 * n
            && independent_size(springs@, n as nat) >= 2 ==> (r matches Some(c) && independent_level(
            springs@,
            independent_set(unweighted(springs@), n as nat),
            c,
        )),
{
    let adj_w = weighted_adjacency(n, springs);
    let mate = match_greedily(n, springs, vertex_weights, &adj_w);
    proof {
        lemma_matching_wf(springs@, vertex_weights@, n as nat, n as nat);
    }
    let (co, next) = number_classes(&mate);
    if (next as u128) * 4 <= (n as u128) * 3 {
        let weights = class_weights(vertex_weights, &co, next);
        let pairs = class_pairs(springs, &co);
        proof {
            lemma_coarse_pairs_total(springs@, co@);
        }
        let coarse_springs = merge_weighted(&pairs);
        return Some(Coarse { n: next, springs: coarse_springs, weights, plan: CoarsePlan::Matching { coarse_of: co } });
    }
    let mut uw: Vec<(usize, usize)> = Vec::new();
    let mut k: usize = 0;
    while k < springs.len()
        invariant
            k <= springs.len(),
            uw.len() == k,
            forall|i: int| 0 <= i < k ==> #[trigger] uw@[i] == (springs@[i].0, springs@[i].1),
        decreases springs.len() - k,
    {
        uw.push((springs[k].0, springs[k].1));
        k = k + 1;
    }
    proof {
        assert(uw@ =~= unweighted(springs@));
    }
    let adj = adjacency_lists(n, &uw);
    let members = select_independent(n, Ghost(uw@), &adj);
    proof {
        lemma_independent_len(uw@, n as nat, n as nat);
    }
    let (co2, count) = number_members(&members);
    if (count as u128) * 4 > (n as u128) * 3 || count < 2 {
        return None;
    }
    let near = near_springs(&adj, Ghost(uw@), &members, &co2);
    let mut weights: Vec<u64> = Vec::new();
    let mut q: usize = 0;
    while q < count
        invariant
            q <= count,
            weights.len() == q,
            forall|i: int| 0 <= i < q ==> #[trigger] weights@[i] == 1u64,
        decreases count - q,
    {
        weights.push(1);
        q = q + 1;
    }
    proof {
        assert(weights@ =~= Seq::new(count as nat, |i: int| 1u64));
    }
    let c = Coarse { n: count, springs: near, weights, plan: CoarsePlan::IndependentSet { coarse_of: co2 } };
    proof {
        let s = independent_set(unweighted(springs@), n as nat);
        assert(members@ == s);
        assert(c.n == count_true(s, s.len() as int));
        assert(c.plan matches CoarsePlan::IndependentSet { coarse_of } && coarse_of@ == Seq::new(
            s.len(),
            |x: int|
                if s[x] {
                    Some(count_true(s, x) as usize)
                } else {
                    None
                },
        ));
        assert(c.weights@ == Seq::new(c.n as nat, |k: int| 1u64));
        assert(keys_rising(c.springs@));
        assert(forall|i: int| 0 <= i < c.springs@.len() ==> (#[trigger] c.springs@[i]).2 == 1);
        assert(forall|key: (usize, usize)|
            #[trigger] near_pair(unweighted(springs@), s, key) <==> exists|i: int|
                0 <= i < c.springs@.len() && (#[trigger] c.springs@[i].0, c.springs@[i].1) == key);
    }
    Some(c)
}

/// Each spring keyed by its pair of ends, smaller first, with weight 1.
pub open spec fn unit_pairs(springs: Seq<(usize, usize)>) -> Seq<((usize, usize), u64)> {
    springs.map_values(|s: (usize, usize)| (if s.0 < s.1 { (s.0, s.1) } else { (s.1, s.0) }, 1u64))
}

/// Parallel springs gathered into weights: each pair of ends once, smaller
/// end first, in order, weighted by the number of springs joining it.
pub fn spring_weights(springs: &[(usize, usize)]) -> (r: Vec<(usize, usize, u64)>)
    ensures
        merged(unit_pairs(springs@), r@),
{
    let mut pairs: Vec<((usize, usize), u64)> = Vec::new();
    let mut k: usize = 0;
    while k < springs.len()
        invariant
            k <= springs.len(),
            pairs@ == unit_pairs(springs@.take(k as int)),
        decreases springs.len() - k,
    {
        let (a, b) = springs[k];
        if a < b {
            pairs.push(((a, b), 1));
        } else {
            pairs.push(((b, a), 1));
        }
        proof {
            assert(pairs@ =~= unit_pairs(springs@.take(k + 1)));
        }
        k = k + 1;
    }
    proof {
        assert(springs@.take(springs.len() as int) =~= springs@);
        assert forall|i: int| 0 <= i < pairs@.len() implies (#[trigger] pairs@[i]).1 == 1 by {}
        lemma_unit_total(pairs@);
        assert(pairs@.len() == springs.len());
        assert(usize::MAX <= u64::MAX);
    }
    merge_weighted(&pairs)
}

/// A vertex with a candidate has a best candidate.
proof fn lemma_best_exists(
    springs: Seq<(usize, usize, u64)>,
    vw: Seq<u64>,
    mate: Seq<Option<usize>>,
    v: usize,
    u: usize,
    w: u64,
)
    requires
        candidate(springs, mate, v, u, w),
    ensures
        exists|u1: usize, w1: u64| #[trigger] best_candidate(springs, vw, mate, v, u1, w1),
{
    let best = lemma_best_of_prefix(springs, vw, mate, v, springs.len() as int, u, w);
    assert(springs.take(springs.len() as int) =~= springs);
    assert forall|u2: usize, w2: u64| #[trigger] candidate(springs, mate, v, u2, w2) implies !prefer(vw, u2, w2, best.0, best.1) by {
        let k = choose|k: int| 0 <= k < springs.len() && (#[trigger] springs[k] == (v, u2, w2) || springs[k] == (u2, v, w2));
        assert(springs.take(springs.len() as int)[k] == springs[k]);
    }
    assert(best_candidate(springs, vw, mate, v, best.0, best.1));
}

/// Among the candidates that the first `j` springs give, one is preferred
/// to none of them (`(u, w)` is some candidate, to start from).
proof fn lemma_best_of_prefix(
    springs: Seq<(usize, usize, u64)>,
    vw: Seq<u64>,
    mate: Seq<Option<usize>>,
    v: usize,
    j: int,
    u: usize,
    w: u64,
) -> (best: (usize, u64))
    requires
        0 <= j <= springs.len(),
        candidate(springs, mate, v, u, w),
    ensures
        candidate(springs, mate, v, best.0, best.1),
        forall|u2: usize, w2: u64|
            #[trigger] spring_at(springs.take(j), v, u2, w2) && candidate(springs, mate, v, u2, w2) ==> !prefer(
                vw,
                u2,
                w2,
                best.0,
                best.1,
            ),
    decreases j,
{
    if j == 0 {
        (u, w)
    } else {
        let b0 = lemma_best_of_prefix(springs, vw, mate, v, j - 1, u, w);
        let e = springs[j - 1];
        let other = if e.0 == v { e.1 } else { e.0 };
        let here = (e.0 == v || e.1 == v) && other != v && mate[other as int] is None;
        let best = if here && prefer(vw, other, e.2, b0.0, b0.1) { (other, e.2) } else { b0 };
        if here {
            assert(springs[j - 1] == (v, other, e.2) || springs[j - 1] == (other, v, e.2));
        }
        assert forall|u2: usize, w2: u64|
            #[trigger] spring_at(springs.take(j), v, u2, w2) && candidate(springs, mate, v, u2, w2) implies !prefer(
                vw,
                u2,
                w2,
                best.0,
                best.1,
            ) by {
            lemma_spring_at_take(springs, j - 1, v, u2, w2);
            if !spring_at(springs.take(j - 1), v, u2, w2) {
                assert(springs[j - 1] == (v, u2, w2) || springs[j - 1] == (u2, v, w2));
            }
        }
        best
    }
}

/// Law: the greedy matching is a maximal matching: matched vertices are
/// matched to each other in pairs joined by a spring, and every unmatched
/// vertex has no unmatched neighbor other than itself.
pub proof fn greedy_matching_is_maximal(springs: Seq<(usize, usize, u64)>, vw: Seq<u64>, n: nat)
    requires
        n <= usize::MAX,
        forall|j: int| 0 <= j < springs.len() ==> (#[trigger] springs[j]).0 < n && springs[j].1 < n,
    ensures
        greedy_matching(springs, vw, n).len() == n,
        forall|x: int|
            0 <= x < n && (#[trigger] greedy_matching(springs, vw, n)[x]) is Some ==> ({
                let y = greedy_matching(springs, vw, n)[x]->Some_0;
                &&& y < n
                &&& y != x
                &&& greedy_matching(springs, vw, n)[y as int] == Some(x as usize)
                &&& exists|w: u64| #[trigger] spring_at(springs, x as usize, y, w)
            }),
        forall|x: int, u: usize, w: u64|
            0 <= x < n && greedy_matching(springs, vw, n)[x] is None && #[trigger] spring_at(springs, x as usize, u, w) && u
                != x ==> greedy_matching(springs, vw, n)[u as int] is Some,
{
    lemma_matching_wf(springs, vw, n, n);
    lemma_matching_maximal(springs, vw, n, n);
}

proof fn lemma_matching_maximal(springs: Seq<(usize, usize, u64)>, vw: Seq<u64>, n: nat, k: nat)
    requires
        k <= n <= usize::MAX,
        forall|j: int| 0 <= j < springs.len() ==> (#[trigger] springs[j]).0 < n && springs[j].1 < n,
    ensures
        forall|x: int|
            0 <= x < n && (#[trigger] matching_after(springs, vw, n, k)[x]) is Some ==> exists|w: u64|
                #[trigger] spring_at(springs, x as usize, matching_after(springs, vw, n, k)[x]->Some_0, w),
        forall|x: int, u: usize, w: u64|
            0 <= x < k && matching_after(springs, vw, n, k)[x] is None && #[trigger] spring_at(springs, x as usize, u, w) && u
                != x ==> matching_after(springs, vw, n, k)[u as int] is Some,
    decreases k,
{
    lemma_matching_wf(springs, vw, n, k);
    if k > 0 {
        lemma_matching_maximal(springs, vw, n, (k - 1) as nat);
        lemma_matching_wf(springs, vw, n, (k - 1) as nat);
        let m = matching_after(springs, vw, n, (k - 1) as nat);
        let m1 = matching_after(springs, vw, n, k);
        let v = (k - 1) as usize;
        if m[v as int] is None {
            match partner(springs, vw, m, v) {
                Some(u) => {
                    let (u1, w1) = choose|u1: usize, w1: u64| #[trigger] best_candidate(springs, vw, m, v, u1, w1);
                    assert(best_candidate(springs, vw, m, v, u1, w1));
                    assert(u == u1);
                    assert(m1 == m.update(v as int, Some(u)).update(u as int, Some(v)));
                    assert forall|x: int| 0 <= x < n && (#[trigger] m1[x]) is Some implies exists|w: u64|
                        #[trigger] spring_at(springs, x as usize, m1[x]->Some_0, w) by {
                        if x == v {
                            assert(spring_at(springs, v, u, w1));
                        } else if x == u {
                            let kk = choose|kk: int|
                                0 <= kk < springs.len() && (#[trigger] springs[kk] == (v, u, w1) || springs[kk] == (u, v, w1));
                            assert(spring_at(springs, u, v, w1));
                        } else {
                            assert(m1[x] == m[x]);
                        }
                    }
                    assert forall|x: int, y: usize, w: u64|
                        0 <= x < k && m1[x] is None && #[trigger] spring_at(springs, x as usize, y, w) && y != x implies m1[y as int]
                            is Some by {
                        assert(x != v && x != u);
                        assert(m[x] is None && x < v);
                    }
                },
                None => {
                    assert(m1 == m);
                    assert forall|y: usize, w: u64| spring_at(springs, v, y, w) && y != v implies m[y as int] is Some by {
                        if m[y as int] is None {
                            assert(candidate(springs, m, v, y, w));
                            lemma_best_exists(springs, vw, m, v, y, w);
                        }
                    }
                },
            }
        }
    }
}

/// Law: the greedy independent set is a maximal independent set: no two
/// members are neighbors, and every other vertex has a member neighbor.
pub proof fn independent_set_is_maximal(springs: Seq<(usize, usize)>, n: nat)
    ensures
        independent_set(springs, n).len() == n,
        forall|u: int, v: int|
            0 <= u < n && 0 <= v < n && u != v && #[trigger] independent_set(springs, n)[u] && #[trigger] independent_set(
                springs,
                n,
            )[v] ==> !adjacent(springs, u, v),
        forall|x: int|
            0 <= x < n && !#[trigger] independent_set(springs, n)[x] ==> exists|u: int|
                0 <= u < n && independent_set(springs, n)[u] && adjacent(springs, u, x),
{
    lemma_independent_len(springs, n, n);
    lemma_independent_maximal(springs, n, n);
}

proof fn lemma_independent_maximal(springs: Seq<(usize, usize)>, n: nat, k: nat)
    requires
        k <= n,
    ensures
        forall|u: int, v: int|
            0 <= u < n && 0 <= v < n && u != v && #[trigger] independent_after(springs, n, k)[u] && #[trigger] independent_after(
                springs,
                n,
                k,
            )[v] ==> !adjacent(springs, u, v),
        forall|x: int|
            0 <= x < k && !#[trigger] independent_after(springs, n, k)[x] ==> exists|u: int|
                0 <= u < x && independent_after(springs, n, k)[u] && adjacent(springs, u, x),
    decreases k,
{
    lemma_independent_len(springs, n, k);
    if k > 0 {
        lemma_independent_maximal(springs, n, (k - 1) as nat);
        lemma_independent_len(springs, n, (k - 1) as nat);
        let s = independent_after(springs, n, (k - 1) as nat);
        let s1 = independent_after(springs, n, k);
        let v = k - 1;
        assert forall|a: int, b: int| 0 <= a < n && 0 <= b < n && a != b && #[trigger] s1[a] && #[trigger] s1[b] implies !adjacent(
            springs,
            a,
            b,
        ) by {
            if a == v {
                assert(s[b] && b < v);
                lemma_adjacent_symmetric(springs, a, b);
            } else if b == v {
                assert(s[a] && a < v);
            } else {
                assert(s[a] && s[b]);
            }
        }
        assert forall|x: int| 0 <= x < k && !#[trigger] s1[x] implies exists|u: int| 0 <= u < x && s1[u] && adjacent(springs, u, x) by {
            if x == v {
                let u = choose|u: int| 0 <= u < v && #[trigger] s[u] && adjacent(springs, u, v);
                assert(s1[u]);
            } else {
                assert(!s[x]);
                let u = choose|u: int| 0 <= u < x && s[u] && adjacent(springs, u, x);
                assert(s1[u]);
            }
        }
    }
}

proof fn lemma_adjacent_symmetric(springs: Seq<(usize, usize)>, a: int, b: int)
    ensures
        adjacent(springs, a, b) <==> adjacent(springs, b, a),
{
}

} // verus!
