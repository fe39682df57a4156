//! The discrete side of drawing hypergraphs and causal graphs: the vertex
//! pairs a layout pulls together, the segments that get drawn, the
//! numbering of parallel segments, the layering of events by generation,
//! and color codes.

use std::collections::HashMap;

use vstd::prelude::*;

use crate::rule::Atom;
use crate::text::push_char;
use crate::token::Generation;

verus! {

broadcast use vstd::std_specs::hash::group_hash_axioms;

/// The springs of one edge from its first `i` positions: each position pulls
/// toward the next one, the last toward the first; equal atoms pull nothing.
pub open spec fn cyclic_springs(e: Seq<Atom>, index: Map<Atom, usize>, i: int) -> Seq<(usize, usize)>
    decreases i,
{
    if i <= 0 {
        Seq::empty()
    } else {
        let rest = cyclic_springs(e, index, i - 1);
        let a = e[i - 1];
        let b = if i == e.len() {
            e[0]
        } else {
            e[i]
        };
        if a != b {
            rest.push((index[a], index[b]))
        } else {
            rest
        }
    }
}

/// The springs of one edge (none for edges of fewer than two atoms).
pub open spec fn edge_springs(e: Seq<Atom>, index: Map<Atom, usize>) -> Seq<(usize, usize)> {
    if e.len() < 2 {
        Seq::empty()
    } else {
        cyclic_springs(e, index, e.len() as int)
    }
}

/// The springs of all edges, edge after edge.
pub open spec fn springs_of(edges: Seq<Seq<Atom>>, index: Map<Atom, usize>) -> Seq<(usize, usize)>
    decreases edges.len(),
{
    if edges.len() == 0 {
        Seq::empty()
    } else {
        springs_of(edges.drop_last(), index) + edge_springs(edges.last(), index)
    }
}

/// The layout springs of a hypergraph: within each edge, consecutive atoms
/// and the last and first atom pull together (self-pairs are dropped);
/// vertices are given by their position in `index`.
pub fn layout_springs(edges: &[Vec<Atom>], index: &HashMap<Atom, usize>) -> (r: Vec<(usize, usize)>)
    requires
        forall|i: int, j: int|
            0 <= i < edges@.len() && 0 <= j < edges@[i]@.len() ==> index@.contains_key(#[trigger] edges@[i]@[j]),
    ensures
        r@ == springs_of(crate::slice_edges(edges@), index@),
{
    let ghost es = crate::slice_edges(edges@);
    let mut out: Vec<(usize, usize)> = Vec::new();
    let mut i: usize = 0;
    while i < edges.len()
        invariant
            i <= edges.len(),
            es == crate::slice_edges(edges@),
            forall|ii: int, j: int|
                0 <= ii < edges@.len() && 0 <= j < edges@[ii]@.len() ==> index@.contains_key(#[trigger] edges@[ii]@[j]),
            out@ == springs_of(es.take(i as int), index@),
        decreases edges.len() - i,
    {
        let edge = &edges[i];
        let k = edge.len();
        let ghost base = out@;
        if k >= 2 {
            let mut p: usize = 0;
            while p < k
                invariant
                    p <= k,
                    k == edge.len(),
                    k >= 2,
                    forall|j: int| 0 <= j < edge@.len() ==> index@.contains_key(#[trigger] edge@[j]),
                    out@ == base + cyclic_springs(edge@, index@, p as int),
                decreases k - p,
            {
                let a = edge[p];
                let b = if p + 1 == k {
                    edge[0]
                } else {
                    edge[p + 1]
                };
                if a != b {
                    let ia = *index.get(&a).unwrap();
                    let ib = *index.get(&b).unwrap();
                    out.push((ia, ib));
                }
                p = p + 1;
            }
        }
        proof {
            assert(es.take(i + 1).drop_last() =~= es.take(i as int));
            assert(es[i as int] == edge@);
            if k < 2 {
                assert(out@ =~= base + edge_springs(edge@, index@));
            }
        }
        i = i + 1;
    }
    proof {
        assert(es.take(edges.len() as int) =~= es);
    }
    out
}

/// The segments drawn for one edge: each consecutive pair of atoms.
pub open spec fn edge_segments(e: Seq<Atom>) -> Seq<(Atom, Atom)> {
    Seq::new(if e.len() >= 1 { (e.len() - 1) as nat } else { 0 }, |i: int| (e[i], e[i + 1]))
}

/// The segments of all edges, edge after edge.
pub open spec fn segments_of(edges: Seq<Seq<Atom>>) -> Seq<(Atom, Atom)>
    decreases edges.len(),
{
    if edges.len() == 0 {
        Seq::empty()
    } else {
        segments_of(edges.drop_last()) + edge_segments(edges.last())
    }
}

/// The segments that get drawn: the ordered consecutive pairs of every
/// edge.
pub fn drawn_segments(edges: &[Vec<Atom>]) -> (r: Vec<(Atom, Atom)>)
    ensures
        r@ == segments_of(crate::slice_edges(edges@)),
{
    let ghost es = crate::slice_edges(edges@);
    let mut out: Vec<(Atom, Atom)> = Vec::new();
    let mut i: usize = 0;
    while i < edges.len()
        invariant
            i <= edges.len(),
            es == crate::slice_edges(edges@),
            out@ == segments_of(es.take(i as int)),
        decreases edges.len() - i,
    {
        let edge = &edges[i];
        let ghost base = out@;
        let mut j: usize = 0;
        while j + 1 < edge.len()
            invariant
                j + 1 <= edge.len() || j == 0,
                out@ == base + Seq::new(j as nat, |q: int| (edge@[q], edge@[q + 1])),
            decreases edge.len() - j,
        {
            out.push((edge[j], edge[j + 1]));
            proof {
                assert(out@ =~= base + Seq::new((j + 1) as nat, |q: int| (edge@[q], edge@[q + 1])));
            }
            j = j + 1;
        }
        proof {
            assert(es.take(i + 1).drop_last() =~= es.take(i as int));
            assert(es[i as int] == edge@);
            assert(out@ =~= base + edge_segments(edge@));
        }
        i = i + 1;
    }
    proof {
        assert(es.take(edges.len() as int) =~= es);
    }
    out
}

/// How many of the first `hi` keys equal `x`.
pub open spec fn count_before(keys: Seq<(i64, i64)>, x: (i64, i64), hi: int) -> nat
    decreases hi,
{
    if hi <= 0 {
        0
    } else {
        count_before(keys, x, hi - 1) + if keys[hi - 1] == x {
            1nat
        } else {
            0nat
        }
    }
}

proof fn lemma_count_before_bound(keys: Seq<(i64, i64)>, x: (i64, i64), hi: int)
    requires
        hi >= 0,
    ensures
        count_before(keys, x, hi) <= hi,
    decreases hi,
{
    if hi > 0 {
        lemma_count_before_bound(keys, x, hi - 1);
    }
}

/// For each key: how many equal keys come before it, and how many equal
/// keys there are in all (the numbering of parallel segments).
pub fn occurrence_ranks(keys: &[(i64, i64)]) -> (r: Vec<(usize, usize)>)
    ensures
        r.len() == keys.len(),
        forall|i: int|
            0 <= i < keys.len() ==> #[trigger] r@[i] == (
                count_before(keys@, keys@[i], i) as usize,
                count_before(keys@, keys@[i], keys@.len() as int) as usize,
            ),
{
    let n = keys.len();
    let mut out: Vec<(usize, usize)> = Vec::new();
    let mut i: usize = 0;
    while i < n
        invariant
            i <= n,
            n == keys.len(),
            out.len() == i,
            forall|q: int|
                0 <= q < i ==> #[trigger] out@[q] == (
                    count_before(keys@, keys@[q], q) as usize,
                    count_before(keys@, keys@[q], n as int) as usize,
                ),
        decreases n - i,
    {
        let x = keys[i];
        let mut before: usize = 0;
        let mut all: usize = 0;
        let mut j: usize = 0;
        while j < n
            invariant
                j <= n,
                n == keys.len(),
                i < n,
                x == keys@[i as int],
                all == count_before(keys@, x, j as int),
                before == count_before(keys@, x, if j < i { j as int } else { i as int }),
            decreases n - j,
        {
            proof {
                lemma_count_before_bound(keys@, x, j as int);
            }
            if keys[j].0 == x.0 && keys[j].1 == x.1 {
                all = all + 1;
                if j < i {
                    before = before + 1;
                }
            }
            j = j + 1;
        }
        out.push((before, all));
        i = i + 1;
    }
    out
}

/// The ids from `first` up to `hi` (exclusive) whose generation is `g`, in
/// order.
pub open spec fn ids_of_generation(gens: Seq<Generation>, first: int, hi: int, g: int) -> Seq<usize>
    decreases hi - first,
{
    if hi <= first {
        Seq::empty()
    } else {
        let rest = ids_of_generation(gens, first, hi - 1, g);
        if gens[hi - 1] == g {
            rest.push((hi - 1) as usize)
        } else {
            rest
        }
    }
}

/// The largest generation of the ids from `first` up to `hi` (exclusive).
pub open spec fn max_generation(gens: Seq<Generation>, first: int, hi: int) -> int
    decreases hi - first,
{
    if hi <= first + 1 {
        gens[first] as int
    } else {
        let m = max_generation(gens, first, hi - 1);
        if gens[hi - 1] > m {
            gens[hi - 1] as int
        } else {
            m
        }
    }
}

proof fn lemma_max_generation(gens: Seq<Generation>, first: int, hi: int)
    requires
        first < hi <= gens.len(),
        0 <= first,
    ensures
        forall|i: int| first <= i < hi ==> #[trigger] gens[i] <= max_generation(gens, first, hi),
    decreases hi - first,
{
    if hi > first + 1 {
        lemma_max_generation(gens, first, hi - 1);
    }
}

/// The events from `first` on, grouped in layers by generation: layer `k`
/// holds, in order, the ids whose generation is `k` above that of `first`.
pub fn layers_by_generation(generations: &[Generation], first: usize) -> (r: Vec<Vec<usize>>)
    requires
        first < generations.len(),
        generations@[first as int] >= 0,
        forall|i: int| first <= i < generations.len() ==> generations@[first as int] <= #[trigger] generations@[i],
        max_generation(generations@, first as int, generations.len() as int) - generations@[first as int] < usize::MAX,
    ensures
        r.len() == max_generation(generations@, first as int, generations.len() as int) - generations@[first as int] + 1,
        forall|k: int|
            0 <= k < r.len() ==> (#[trigger] r@[k])@ == ids_of_generation(
                generations@,
                first as int,
                generations.len() as int,
                generations@[first as int] + k,
            ),
{
    let n = generations.len();
    let low = generations[first];
    let mut high = low;
    let mut i: usize = first + 1;
    while i < n
        invariant
            first < i <= n,
            n == generations.len(),
            high == max_generation(generations@, first as int, i as int),
        decreases n - i,
    {
        if generations[i] > high {
            high = generations[i];
        }
        i = i + 1;
    }
    proof {
        lemma_max_generation(generations@, first as int, n as int);
    }
    let count = (high - low) as usize + 1;
    let mut layers: Vec<Vec<usize>> = Vec::new();
    let mut k: usize = 0;
    while k < count
        invariant
            k <= count,
            count == high - low + 1,
            0 <= low <= high,
            n == generations.len(),
            first < n,
            layers.len() == k,
            forall|q: int|
                0 <= q < k ==> (#[trigger] layers@[q])@ == ids_of_generation(generations@, first as int, n as int, low + q),
        decreases count - k,
    {
        let g = low + k as i64;
        let mut row: Vec<usize> = Vec::new();
        let mut id: usize = first;
        while id < n
            invariant
                first <= id <= n,
                n == generations.len(),
                row@ == ids_of_generation(generations@, first as int, id as int, g as int),
            decreases n - id,
        {
            if generations[id] == g {
                row.push(id);
            }
            id = id + 1;
        }
        layers.push(row);
        k = k + 1;
    }
    layers
}

/// The character of a hexadecimal digit `d < 16` (lower case).
pub open spec fn hex_digit(d: int) -> char {
    if d < 10 {
        ((48 + d) as u8) as char
    } else {
        ((87 + d) as u8) as char
    }
}

/// Two hexadecimal digits of a byte.
pub open spec fn hex_byte(x: u8) -> Seq<char> {
    seq![hex_digit((x / 16) as int), hex_digit((x % 16) as int)]
}

/// `#rrggbb`.
pub open spec fn hex_code(r: u8, g: u8, b: u8) -> Seq<char> {
    seq!['#'] + hex_byte(r) + hex_byte(g) + hex_byte(b)
}

fn push_hex_digit(s: &mut String, d: u8)
    requires
        d < 16,
    ensures
        final(s)@ == old(s)@.push(hex_digit(d as int)),
{
    if d < 10 {
        push_char(s, (48u8 + d) as char);
    } else {
        push_char(s, (87u8 + d) as char);
    }
}

/// The color code `#rrggbb` of a color, in lower-case hexadecimal.
pub fn hex_color(r: u8, g: u8, b: u8) -> (s: String)
    ensures
        s@ == hex_code(r, g, b),
{
    let mut s = String::new();
    push_char(&mut s, '#');
    push_hex_digit(&mut s, r / 16);
    push_hex_digit(&mut s, r % 16);
    push_hex_digit(&mut s, g / 16);
    push_hex_digit(&mut s, g % 16);
    push_hex_digit(&mut s, b / 16);
    push_hex_digit(&mut s, b % 16);
    proof {
        assert(s@ =~= hex_code(r, g, b));
    }
    s
}

/// The salt that keys the separation direction of a pair of coincident
/// vertices: the first index in the high half, xored with the second.
pub open spec fn pair_salt_spec(i: usize, j: usize) -> u64 {
    ((i as u64) << 32u64) ^ (j as u64)
}

/// Salt for the pair `(i, j)`.
pub fn pair_salt(i: usize, j: usize) -> (r: u64)
    ensures
        r == pair_salt_spec(i, j),
{
    ((i as u64) << 32u64) ^ (j as u64)
}

/// The splitmix64 output for a salt: the salt advanced by the golden-ratio
/// increment, then mixed by two xor-shift-multiply rounds and a final
/// xor-shift.
pub open spec fn splitmix(salt: u64) -> u64 {
    let z0 = vstd::wrapping::u64_specs::wrapping_add(salt, 0x9E37_79B9_7F4A_7C15u64);
    let z1 = vstd::wrapping::u64_specs::wrapping_mul(z0 ^ (z0 >> 30u64), 0xBF58_476D_1CE4_E5B9u64);
    let z2 = vstd::wrapping::u64_specs::wrapping_mul(z1 ^ (z1 >> 27u64), 0x94D0_49BB_1331_11EBu64);
    z2 ^ (z2 >> 31u64)
}

/// The splitmix64 hash of `salt`, from which a layout draws the direction
/// that separates coincident vertices.
pub fn hash_salt(salt: u64) -> (r: u64)
    ensures
        r == splitmix(salt),
{
    let mut z = salt.wrapping_add(0x9E37_79B9_7F4A_7C15u64);
    z = (z ^ (z >> 30u64)).wrapping_mul(0xBF58_476D_1CE4_E5B9u64);
    z = (z ^ (z >> 27u64)).wrapping_mul(0x94D0_49BB_1331_11EBu64);
    z ^ (z >> 31u64)
}

/// A spring joins `u` and `v`, in either direction.
pub open spec fn adjacent(springs: Seq<(usize, usize)>, u: int, v: int) -> bool {
    exists|k: int|
        0 <= k < springs.len() && ((#[trigger] springs[k]).0 == u && springs[k].1 == v || springs[k].0 == v && springs[k].1
            == u)
}

/// Consecutive vertices of `p` are joined by springs.
pub open spec fn is_path(springs: Seq<(usize, usize)>, p: Seq<int>) -> bool {
    &&& p.len() >= 1
    &&& forall|i: int| 0 <= i < p.len() - 1 ==> adjacent(springs, #[trigger] p[i], p[i + 1])
}

/// A path of springs leads from `u` to `v`.
pub open spec fn linked(springs: Seq<(usize, usize)>, u: int, v: int) -> bool {
    exists|p: Seq<int>| #[trigger] is_path(springs, p) && p[0] == u && p.last() == v
}

proof fn lemma_linked_refl(springs: Seq<(usize, usize)>, u: int)
    ensures
        linked(springs, u, u),
{
    assert(is_path(springs, seq![u]));
}

proof fn lemma_linked_step(springs: Seq<(usize, usize)>, u: int, v: int, w: int)
    requires
        linked(springs, u, v),
        adjacent(springs, v, w),
    ensures
        linked(springs, u, w),
{
    let p = choose|p: Seq<int>| #[trigger] is_path(springs, p) && p[0] == u && p.last() == v;
    let q = p.push(w);
    assert forall|i: int| 0 <= i < q.len() - 1 implies adjacent(springs, #[trigger] q[i], q[i + 1]) by {
        if i < p.len() - 1 {
            assert(q[i] == p[i] && q[i + 1] == p[i + 1]);
        } else {
            assert(q[i] == v && q[i + 1] == w);
        }
    }
    assert(is_path(springs, q));
}

proof fn lemma_linked_symm(springs: Seq<(usize, usize)>, u: int, v: int)
    requires
        linked(springs, u, v),
    ensures
        linked(springs, v, u),
{
    let p = choose|p: Seq<int>| #[trigger] is_path(springs, p) && p[0] == u && p.last() == v;
    let q = p.reverse();
    assert forall|i: int| 0 <= i < q.len() - 1 implies adjacent(springs, #[trigger] q[i], q[i + 1]) by {
        let j = p.len() - 2 - i;
        assert(q[i] == p[j + 1] && q[i + 1] == p[j]);
        assert(adjacent(springs, p[j], p[j + 1]));
    }
    assert(is_path(springs, q));
}

proof fn lemma_linked_trans(springs: Seq<(usize, usize)>, u: int, v: int, w: int)
    requires
        linked(springs, u, v),
        linked(springs, v, w),
    ensures
        linked(springs, u, w),
{
    let q = choose|q: Seq<int>| #[trigger] is_path(springs, q) && q[0] == v && q.last() == w;
    lemma_linked_along(springs, u, q, 1);
}

proof fn lemma_linked_along(springs: Seq<(usize, usize)>, u: int, q: Seq<int>, k: int)
    requires
        is_path(springs, q),
        1 <= k <= q.len(),
        linked(springs, u, q[0]),
    ensures
        linked(springs, u, q[k - 1]),
        linked(springs, u, q.last()),
    decreases q.len() - k,
{
    if k > 1 {
        lemma_linked_prefix(springs, u, q, k);
    }
    if k < q.len() {
        lemma_linked_along(springs, u, q, k + 1);
    } else {
        lemma_linked_prefix(springs, u, q, k);
    }
}

proof fn lemma_linked_prefix(springs: Seq<(usize, usize)>, u: int, q: Seq<int>, k: int)
    requires
        is_path(springs, q),
        1 <= k <= q.len(),
        linked(springs, u, q[0]),
    ensures
        linked(springs, u, q[k - 1]),
    decreases k,
{
    if k > 1 {
        lemma_linked_prefix(springs, u, q, k - 1);
        assert(adjacent(springs, q[k - 2], q[k - 1]));
        lemma_linked_step(springs, u, q[k - 2], q[k - 1]);
    }
}

/// Vertices joined by every spring carry equal labels; then linked vertices
/// carry equal labels.
proof fn lemma_linked_same_label(springs: Seq<(usize, usize)>, labels: Seq<usize>, p: Seq<int>, k: int)
    requires
        is_path(springs, p),
        1 <= k <= p.len(),
        forall|i: int| 0 <= i < p.len() ==> 0 <= #[trigger] p[i] < labels.len(),
        forall|j: int|
            0 <= j < springs.len() ==> (#[trigger] springs[j]).0 < labels.len() && springs[j].1 < labels.len() && labels[springs[j].0 as int]
                == labels[springs[j].1 as int],
    ensures
        labels[p[k - 1]] == labels[p[0]],
    decreases k,
{
    if k > 1 {
        lemma_linked_same_label(springs, labels, p, k - 1);
        assert(adjacent(springs, p[k - 2], p[k - 1]));
        let j = choose|j: int|
            0 <= j < springs.len() && ((#[trigger] springs[j]).0 == p[k - 2] && springs[j].1 == p[k - 1] || springs[j].0
                == p[k - 1] && springs[j].1 == p[k - 2]);
        assert(labels[springs[j].0 as int] == labels[springs[j].1 as int]);
    }
}

/// The component number of the first `v` vertices' next new component.
pub open spec fn fresh_rank(r: Seq<usize>, v: int) -> int
    decreases v,
{
    if v <= 0 {
        0
    } else {
        let m = fresh_rank(r, v - 1);
        if r[v - 1] + 1 > m {
            r[v - 1] + 1
        } else {
            m
        }
    }
}

/// Sum of the labels.
spec fn label_sum(l: Seq<usize>) -> int
    decreases l.len(),
{
    if l.len() == 0 {
        0
    } else {
        label_sum(l.drop_last()) + l.last()
    }
}

proof fn lemma_label_sum_update(l: Seq<usize>, i: int, x: usize)
    requires
        0 <= i < l.len(),
    ensures
        label_sum(l.update(i, x)) == label_sum(l) - l[i] + x,
    decreases l.len(),
{
    if i < l.len() - 1 {
        assert(l.update(i, x).drop_last() =~= l.drop_last().update(i, x));
        lemma_label_sum_update(l.drop_last(), i, x);
    } else {
        assert(l.update(i, x).drop_last() =~= l.drop_last());
    }
}

proof fn lemma_label_sum_nonneg(l: Seq<usize>)
    ensures
        label_sum(l) >= 0,
    decreases l.len(),
{
    if l.len() > 0 {
        lemma_label_sum_nonneg(l.drop_last());
    }
}

/// Every vertex carries a label no larger than itself, of a vertex linked
/// to it.
spec fn labels_sound(springs: Seq<(usize, usize)>, l: Seq<usize>) -> bool {
    forall|v: int| 0 <= v < l.len() ==> #[trigger] l[v] <= v && linked(springs, v, l[v] as int)
}

/// One sweep over the springs: each spring hands the smaller label of its
/// ends to the other end. Returns whether any label changed; when none did,
/// every spring joins equal labels.
fn relax_labels(labels: &mut Vec<usize>, springs: &[(usize, usize)]) -> (changed: bool)
    requires
        forall|j: int| 0 <= j < springs.len() ==> (#[trigger] springs@[j]).0 < old(labels).len() && springs@[j].1 < old(labels).len(),
        labels_sound(springs@, old(labels)@),
    ensures
        final(labels).len() == old(labels).len(),
        labels_sound(springs@, final(labels)@),
        changed ==> label_sum(final(labels)@) < label_sum(old(labels)@),
        !changed ==> final(labels)@ == old(labels)@ && forall|j: int|
            0 <= j < springs.len() ==> final(labels)@[(#[trigger] springs@[j]).0 as int] == final(labels)@[springs@[j].1 as int],
{
    let ghost start = labels@;
    let mut changed = false;
    let mut j: usize = 0;
    while j < springs.len()
        invariant
            j <= springs.len(),
            labels.len() == start.len(),
            forall|q: int| 0 <= q < springs.len() ==> (#[trigger] springs@[q]).0 < labels.len() && springs@[q].1 < labels.len(),
            labels_sound(springs@, labels@),
            changed ==> label_sum(labels@) < label_sum(start),
            !changed ==> labels@ == start && forall|q: int|
                0 <= q < j ==> labels@[(#[trigger] springs@[q]).0 as int] == labels@[springs@[q].1 as int],
        decreases springs.len() - j,
    {
        let (a, b) = springs[j];
        let la = labels[a];
        let lb = labels[b];
        if la < lb {
            proof {
                assert(adjacent(springs@, b as int, a as int)) by {
                    assert(springs@[j as int].0 == a && springs@[j as int].1 == b);
                }
                lemma_linked_refl(springs@, b as int);
                lemma_linked_step(springs@, b as int, b as int, a as int);
                lemma_linked_trans(springs@, b as int, a as int, la as int);
                lemma_label_sum_update(labels@, b as int, la);
            }
            let ghost before = labels@;
            labels.set(b, la);
            proof {
                assert forall|w: int| 0 <= w < labels.len() implies #[trigger] labels@[w] <= w && linked(springs@, w, labels@[w] as int) by {
                    if w != b {
                        assert(labels@[w] == before[w]);
                    }
                }
            }
            changed = true;
        } else if lb < la {
            proof {
                assert(adjacent(springs@, a as int, b as int)) by {
                    assert(springs@[j as int].0 == a && springs@[j as int].1 == b);
                }
                lemma_linked_refl(springs@, a as int);
                lemma_linked_step(springs@, a as int, a as int, b as int);
                lemma_linked_trans(springs@, a as int, b as int, lb as int);
                lemma_label_sum_update(labels@, a as int, lb);
            }
            let ghost before = labels@;
            labels.set(a, lb);
            proof {
                assert forall|w: int| 0 <= w < labels.len() implies #[trigger] labels@[w] <= w && linked(springs@, w, labels@[w] as int) by {
                    if w != a {
                        assert(labels@[w] == before[w]);
                    }
                }
            }
            changed = true;
        }
        j = j + 1;
    }
    changed
}

/// The vertices below `k` whose group is `c`, in order.
pub open spec fn members_below(group: Seq<usize>, c: int, k: int) -> Seq<usize>
    decreases k,
{
    if k <= 0 {
        Seq::empty()
    } else {
        let rest = members_below(group, c, k - 1);
        if group[k - 1] == c {
            rest.push((k - 1) as usize)
        } else {
            rest
        }
    }
}

/// The springs whose first end is in group `c`, in order.
pub open spec fn springs_in(springs: Seq<(usize, usize)>, group: Seq<usize>, c: int) -> Seq<(usize, usize)>
    decreases springs.len(),
{
    if springs.len() == 0 {
        Seq::empty()
    } else {
        let rest = springs_in(springs.drop_last(), group, c);
        if group[springs.last().0 as int] == c {
            rest.push(springs.last())
        } else {
            rest
        }
    }
}

/// Splits vertices and springs by the group of each vertex (groups
/// numbered from 0): for each group up to the largest, its vertices in
/// order, and the springs whose first end lies in it, in order.
pub fn group_members(group: &Vec<usize>, springs: &[(usize, usize)]) -> (r: (Vec<Vec<usize>>, Vec<Vec<(usize, usize)>>))
    requires
        forall|v: int| 0 <= v < group.len() ==> #[trigger] group@[v] < usize::MAX,
        forall|j: int| 0 <= j < springs.len() ==> (#[trigger] springs@[j]).0 < group.len(),
    ensures
        r.0.len() == r.1.len(),
        forall|v: int| 0 <= v < group.len() ==> #[trigger] group@[v] < r.0.len(),
        r.0.len() > 0 ==> exists|v: int| 0 <= v < group.len() && #[trigger] group@[v] == r.0.len() - 1,
        forall|c: int| 0 <= c < r.0.len() ==> (#[trigger] r.0@[c])@ == members_below(group@, c, group.len() as int),
        forall|c: int| 0 <= c < r.1.len() ==> (#[trigger] r.1@[c])@ == springs_in(springs@, group@, c),
{
    let mut count: usize = 0;
    let mut v: usize = 0;
    while v < group.len()
        invariant
            v <= group.len(),
            forall|x: int| 0 <= x < group.len() ==> #[trigger] group@[x] < usize::MAX,
            forall|x: int| 0 <= x < v ==> #[trigger] group@[x] < count,
            count > 0 ==> exists|x: int| 0 <= x < v && #[trigger] group@[x] == count - 1,
        decreases group.len() - v,
    {
        if group[v] + 1 > count {
            count = group[v] + 1;
        }
        v = v + 1;
    }
    let mut members: Vec<Vec<usize>> = Vec::new();
    let mut grouped: Vec<Vec<(usize, usize)>> = Vec::new();
    let mut c: usize = 0;
    while c < count
        invariant
            c <= count,
            members.len() == c,
            grouped.len() == c,
            forall|q: int| 0 <= q < c ==> (#[trigger] members@[q])@ == Seq::<usize>::empty(),
            forall|q: int| 0 <= q < c ==> (#[trigger] grouped@[q])@ == Seq::<(usize, usize)>::empty(),
        decreases count - c,
    {
        members.push(Vec::new());
        grouped.push(Vec::new());
        c = c + 1;
    }
    let mut v: usize = 0;
    while v < group.len()
        invariant
            v <= group.len(),
            members.len() == count,
            forall|x: int| 0 <= x < group.len() ==> #[trigger] group@[x] < count,
            forall|q: int| 0 <= q < count ==> (#[trigger] members@[q])@ == members_below(group@, q, v as int),
        decreases group.len() - v,
    {
        let g = group[v];
        let ghost before = members@;
        members[g].push(v);
        proof {
            assert forall|q: int| 0 <= q < count implies (#[trigger] members@[q])@ == members_below(group@, q, v + 1) by {
                if q != g {
                    assert(members@[q] == before[q]);
                }
            }
        }
        v = v + 1;
    }
    let mut k: usize = 0;
    while k < springs.len()
        invariant
            k <= springs.len(),
            grouped.len() == count,
            forall|x: int| 0 <= x < group.len() ==> #[trigger] group@[x] < count,
            forall|j: int| 0 <= j < springs.len() ==> (#[trigger] springs@[j]).0 < group.len(),
            forall|q: int| 0 <= q < count ==> (#[trigger] grouped@[q])@ == springs_in(springs@.take(k as int), group@, q),
        decreases springs.len() - k,
    {
        let (a, b) = springs[k];
        let g = group[a];
        let ghost before = grouped@;
        grouped[g].push((a, b));
        proof {
            assert(springs@.take(k + 1).drop_last() =~= springs@.take(k as int));
            assert(springs@.take(k + 1).last() == springs@[k as int]);
            assert forall|q: int| 0 <= q < count implies (#[trigger] grouped@[q])@ == springs_in(springs@.take(k + 1), group@, q) by {
                if q != g {
                    assert(grouped@[q] == before[q]);
                }
            }
        }
        k = k + 1;
    }
    proof {
        assert(springs@.take(springs.len() as int) =~= springs@);
    }
    (members, grouped)
}

/// The connected components of the graph on vertices `0..n` whose edges are
/// `springs`: vertex `v` gets the number of its component, components being
/// numbered from 0 in order of their first vertex.
pub fn components(n: usize, springs: &[(usize, usize)]) -> (r: Vec<usize>)
    requires
        forall|j: int| 0 <= j < springs.len() ==> (#[trigger] springs@[j]).0 < n && springs@[j].1 < n,
    ensures
        r.len() == n,
        forall|u: int, v: int| 0 <= u < n && 0 <= v < n ==> (r@[u] == r@[v] <==> linked(springs@, u, v)),
        forall|v: int|
            0 <= v < n ==> (forall|u: int| 0 <= u < v ==> r@[u] != r@[v]) ==> #[trigger] r@[v] == fresh_rank(r@, v),
{
    let mut labels: Vec<usize> = Vec::new();
    let mut v: usize = 0;
    while v < n
        invariant
            v <= n,
            labels.len() == v,
            forall|q: int| 0 <= q < v ==> #[trigger] labels@[q] == q,
        decreases n - v,
    {
        labels.push(v);
        v = v + 1;
    }
    proof {
        assert forall|q: int| 0 <= q < labels.len() implies #[trigger] labels@[q] <= q && linked(springs@, q, labels@[q] as int) by {
            lemma_linked_refl(springs@, q);
        }
        lemma_label_sum_nonneg(labels@);
    }
    loop
        invariant
            labels.len() == n,
            forall|j: int| 0 <= j < springs.len() ==> (#[trigger] springs@[j]).0 < n && springs@[j].1 < n,
            labels_sound(springs@, labels@),
        ensures
            forall|j: int|
                0 <= j < springs.len() ==> labels@[(#[trigger] springs@[j]).0 as int] == labels@[springs@[j].1 as int],
        decreases label_sum(labels@),
    {
        proof {
            lemma_label_sum_nonneg(labels@);
        }
        let changed = relax_labels(&mut labels, springs);
        proof {
            lemma_label_sum_nonneg(labels@);
        }
        if !changed {
            break;
        }
    }
    proof {
        lemma_labels_partition(springs@, labels@);
    }
    let out = number_by_first_appearance(&labels);
    proof {
        assert forall|u: int, v: int| 0 <= u < n && 0 <= v < n implies (out@[u] == out@[v] <==> linked(springs@, u, v)) by {
            assert(out@[u] == out@[v] <==> labels@[u] == labels@[v]);
        }
    }
    out
}

/// Renumbers labels densely from 0 in order of first appearance.
#[verifier::rlimit(40)]
fn number_by_first_appearance(labels: &Vec<usize>) -> (r: Vec<usize>)
    requires
        forall|w: int| 0 <= w < labels.len() ==> #[trigger] labels@[w] <= w,
    ensures
        r.len() == labels.len(),
        forall|u: int, v: int| 0 <= u < labels.len() && 0 <= v < labels.len() ==> (r@[u] == r@[v] <==> labels@[u] == labels@[v]),
        forall|v: int|
            0 <= v < labels.len() ==> (forall|u: int| 0 <= u < v ==> r@[u] != r@[v]) ==> #[trigger] r@[v] == fresh_rank(r@, v),
{
    let n = labels.len();
    let ghost lab = labels@;
    let mut root_id: Vec<usize> = Vec::new();
    let mut q: usize = 0;
    while q < n
        invariant
            q <= n,
            root_id.len() == q,
            forall|x: int| 0 <= x < q ==> #[trigger] root_id@[x] == usize::MAX,
        decreases n - q,
    {
        root_id.push(usize::MAX);
        q = q + 1;
    }
    let mut out: Vec<usize> = Vec::new();
    let mut next: usize = 0;
    let mut i: usize = 0;
    while i < n
        invariant
            i <= n,
            n == labels.len(),
            labels@ == lab,
            root_id.len() == n,
            out.len() == i,
            next <= i,
            forall|w: int| 0 <= w < n ==> #[trigger] lab[w] <= w,
            forall|x: int| 0 <= x < n && #[trigger] root_id@[x] != usize::MAX ==> root_id@[x] < next,
            forall|x: int| 0 <= x < n && #[trigger] root_id@[x] != usize::MAX ==> exists|u: int| 0 <= u < i && lab[u] == x,
            forall|u: int| 0 <= u < i ==> #[trigger] out@[u] == root_id@[lab[u] as int] && out@[u] < next,
            forall|u: int, v: int| 0 <= u < i && 0 <= v < i ==> (#[trigger] out@[u] == #[trigger] out@[v] <==> lab[u] == lab[v]),
            next == fresh_rank(out@, i as int),
            forall|v: int|
                0 <= v < i ==> (forall|u: int| 0 <= u < v ==> out@[u] != out@[v]) ==> #[trigger] out@[v] == fresh_rank(out@, v),
        decreases n - i,
    {
        let l = labels[i];
        let ghost before = out@;
        let ghost old_roots = root_id@;
        if root_id[l] == usize::MAX {
            root_id.set(l, next);
            out.push(next);
            proof {
                lemma_new_number(lab, old_roots, root_id@, before, out@, i as int, next);
            }
            next = next + 1;
        } else {
            let id = root_id[l];
            out.push(id);
            proof {
                lemma_known_number(lab, root_id@, before, out@, i as int, next as int);
            }
        }
        i = i + 1;
    }
    out
}

#[verifier::rlimit(60)]
proof fn lemma_new_number(
    lab: Seq<usize>,
    old_roots: Seq<usize>,
    roots: Seq<usize>,
    before: Seq<usize>,
    out: Seq<usize>,
    i: int,
    next: usize,
)
    requires
        0 <= i < lab.len(),
        roots.len() == lab.len() && old_roots.len() == lab.len(),
        forall|w: int| 0 <= w < lab.len() ==> #[trigger] lab[w] <= w,
        old_roots[lab[i] as int] == usize::MAX,
        roots == old_roots.update(lab[i] as int, next),
        0 <= next <= i,
        out == before.push(next),
        before.len() == i,
        forall|x: int| 0 <= x < lab.len() && #[trigger] old_roots[x] != usize::MAX ==> old_roots[x] < next,
        forall|x: int| 0 <= x < lab.len() && #[trigger] old_roots[x] != usize::MAX ==> exists|u: int| 0 <= u < i && lab[u] == x,
        forall|u: int| 0 <= u < i ==> #[trigger] before[u] == old_roots[lab[u] as int] && before[u] < next,
        forall|u: int, v: int| 0 <= u < i && 0 <= v < i ==> (#[trigger] before[u] == #[trigger] before[v] <==> lab[u] == lab[v]),
        next == fresh_rank(before, i),
        forall|v: int|
            0 <= v < i ==> (forall|u: int| 0 <= u < v ==> before[u] != before[v]) ==> #[trigger] before[v] == fresh_rank(before, v),
    ensures
        forall|x: int| 0 <= x < lab.len() && #[trigger] roots[x] != usize::MAX ==> roots[x] < next + 1,
        forall|x: int| 0 <= x < lab.len() && #[trigger] roots[x] != usize::MAX ==> exists|u: int| 0 <= u < i + 1 && lab[u] == x,
        forall|u: int| 0 <= u < i + 1 ==> #[trigger] out[u] == roots[lab[u] as int] && out[u] < next + 1,
        forall|u: int, v: int| 0 <= u < i + 1 && 0 <= v < i + 1 ==> (#[trigger] out[u] == #[trigger] out[v] <==> lab[u] == lab[v]),
        next + 1 == fresh_rank(out, i + 1),
        forall|v: int|
            0 <= v < i + 1 ==> (forall|u: int| 0 <= u < v ==> out[u] != out[v]) ==> #[trigger] out[v] == fresh_rank(out, v),
{
    let l = lab[i];
    assert forall|u: int| 0 <= u < i implies lab[u] != l by {
        if lab[u] == l {
            assert(old_roots[l as int] != usize::MAX) by {
                assert(before[u] == old_roots[lab[u] as int]);
                assert(before[u] < next);
            }
        }
    }
    assert forall|u: int| 0 <= u < i + 1 implies #[trigger] out[u] == roots[lab[u] as int] && out[u] < next + 1 by {
        if u < i {
            assert(out[u] == before[u]);
        }
    }
    assert forall|x: int| 0 <= x < lab.len() && #[trigger] roots[x] != usize::MAX implies exists|u: int| 0 <= u < i + 1 && lab[u] == x by {
        if x == l {
            assert(lab[i] == x);
        } else {
            assert(roots[x] == old_roots[x]);
            let u = choose|u: int| 0 <= u < i && lab[u] == x;
            assert(0 <= u < i + 1 && lab[u] == x);
        }
    }
    assert forall|u: int, v: int| 0 <= u < i + 1 && 0 <= v < i + 1 implies (#[trigger] out[u] == #[trigger] out[v] <==> lab[u] == lab[v]) by {
        if u < i && v < i {
            assert(out[u] == before[u] && out[v] == before[v]);
        } else if u < i {
            assert(out[u] == before[u]);
        } else if v < i {
            assert(out[v] == before[v]);
        }
    }
    lemma_fresh_rank_prefix(before, out, i);
    assert forall|v: int|
        0 <= v < i + 1 && (forall|u: int| 0 <= u < v ==> out[u] != out[v]) implies #[trigger] out[v] == fresh_rank(out, v) by {
        if v < i {
            lemma_fresh_rank_prefix(before, out, v);
            assert forall|u: int| 0 <= u < v implies before[u] != before[v] by {
                assert(out[u] != out[v]);
            }
        }
    }
}

proof fn lemma_known_number(lab: Seq<usize>, roots: Seq<usize>, before: Seq<usize>, out: Seq<usize>, i: int, next: int)
    requires
        0 <= i < lab.len(),
        roots.len() == lab.len(),
        forall|w: int| 0 <= w < lab.len() ==> #[trigger] lab[w] <= w,
        roots[lab[i] as int] != usize::MAX,
        out == before.push(roots[lab[i] as int]),
        before.len() == i,
        forall|x: int| 0 <= x < lab.len() && #[trigger] roots[x] != usize::MAX ==> roots[x] < next,
        forall|x: int| 0 <= x < lab.len() && #[trigger] roots[x] != usize::MAX ==> exists|u: int| 0 <= u < i && lab[u] == x,
        forall|u: int| 0 <= u < i ==> #[trigger] before[u] == roots[lab[u] as int] && before[u] < next,
        forall|u: int, v: int| 0 <= u < i && 0 <= v < i ==> (#[trigger] before[u] == #[trigger] before[v] <==> lab[u] == lab[v]),
        next == fresh_rank(before, i),
        forall|v: int|
            0 <= v < i ==> (forall|u: int| 0 <= u < v ==> before[u] != before[v]) ==> #[trigger] before[v] == fresh_rank(before, v),
    ensures
        forall|x: int| 0 <= x < lab.len() && #[trigger] roots[x] != usize::MAX ==> exists|u: int| 0 <= u < i + 1 && lab[u] == x,
        forall|u: int| 0 <= u < i + 1 ==> #[trigger] out[u] == roots[lab[u] as int] && out[u] < next,
        forall|u: int, v: int| 0 <= u < i + 1 && 0 <= v < i + 1 ==> (#[trigger] out[u] == #[trigger] out[v] <==> lab[u] == lab[v]),
        next == fresh_rank(out, i + 1),
        forall|v: int|
            0 <= v < i + 1 ==> (forall|u: int| 0 <= u < v ==> out[u] != out[v]) ==> #[trigger] out[v] == fresh_rank(out, v),
{
    let l = lab[i];
    let w = choose|u: int| 0 <= u < i && lab[u] == l;
    assert(before[w] == roots[l as int]);
    assert forall|u: int| 0 <= u < i + 1 implies #[trigger] out[u] == roots[lab[u] as int] && out[u] < next by {
        if u < i {
            assert(out[u] == before[u]);
        }
    }
    assert forall|x: int| 0 <= x < lab.len() && #[trigger] roots[x] != usize::MAX implies exists|u: int| 0 <= u < i + 1 && lab[u] == x by {
        let u = choose|u: int| 0 <= u < i && lab[u] == x;
        assert(0 <= u < i + 1 && lab[u] == x);
    }
    assert forall|u: int, v: int| 0 <= u < i + 1 && 0 <= v < i + 1 implies (#[trigger] out[u] == #[trigger] out[v] <==> lab[u] == lab[v]) by {
        if u < i && v < i {
            assert(out[u] == before[u] && out[v] == before[v]);
        } else if u < i {
            assert(out[u] == before[u]);
            assert(before[u] == before[w] <==> lab[u] == lab[w]);
        } else if v < i {
            assert(out[v] == before[v]);
            assert(before[v] == before[w] <==> lab[v] == lab[w]);
        }
    }
    lemma_fresh_rank_prefix(before, out, i);
    assert forall|v: int|
        0 <= v < i + 1 && (forall|u: int| 0 <= u < v ==> out[u] != out[v]) implies #[trigger] out[v] == fresh_rank(out, v) by {
        if v < i {
            lemma_fresh_rank_prefix(before, out, v);
            assert forall|u: int| 0 <= u < v implies before[u] != before[v] by {
                assert(out[u] != out[v]);
            }
        } else {
            assert(out[w] == out[v]);
        }
    }
}

/// With every spring joining equal labels, and every label that of a vertex
/// linked to its carrier: equal labels are exactly linked vertices.
proof fn lemma_labels_partition(springs: Seq<(usize, usize)>, labels: Seq<usize>)
    requires
        labels_sound(springs, labels),
        forall|j: int| 0 <= j < springs.len() ==> (#[trigger] springs[j]).0 < labels.len() && springs[j].1 < labels.len(),
        forall|j: int| 0 <= j < springs.len() ==> labels[(#[trigger] springs[j]).0 as int] == labels[springs[j].1 as int],
    ensures
        forall|u: int, v: int|
            0 <= u < labels.len() && 0 <= v < labels.len() ==> (labels[u] == labels[v] <==> linked(springs, u, v)),
{
    assert forall|u: int, v: int| 0 <= u < labels.len() && 0 <= v < labels.len() implies (labels[u] == labels[v] <==> linked(springs, u, v)) by {
        assert(labels[u] <= u && linked(springs, u, labels[u] as int));
        assert(labels[v] <= v && linked(springs, v, labels[v] as int));
        if labels[u] == labels[v] {
            lemma_linked_symm(springs, v, labels[v] as int);
            lemma_linked_trans(springs, u, labels[u] as int, v);
        }
        if linked(springs, u, v) {
            let p = choose|p: Seq<int>| #[trigger] is_path(springs, p) && p[0] == u && p.last() == v;
            lemma_path_in_range(springs, labels.len() as int, p);
            lemma_linked_same_label(springs, labels, p, p.len() as int);
        }
    }
}

/// Paths stay among the vertices the springs join.
proof fn lemma_path_in_range(springs: Seq<(usize, usize)>, n: int, p: Seq<int>)
    requires
        is_path(springs, p),
        0 <= p[0] < n,
        forall|j: int| 0 <= j < springs.len() ==> (#[trigger] springs[j]).0 < n && springs[j].1 < n,
    ensures
        forall|i: int| 0 <= i < p.len() ==> 0 <= #[trigger] p[i] < n,
{
    assert forall|i: int| 0 <= i < p.len() implies 0 <= #[trigger] p[i] < n by {
        if i > 0 {
            assert(adjacent(springs, p[i - 1], p[i]));
            let j = choose|j: int|
                0 <= j < springs.len() && ((#[trigger] springs[j]).0 == p[i - 1] && springs[j].1 == p[i] || springs[j].0
                    == p[i] && springs[j].1 == p[i - 1]);
        }
    }
}

proof fn lemma_fresh_rank_prefix(a: Seq<usize>, b: Seq<usize>, v: int)
    requires
        0 <= v <= a.len(),
        v <= b.len(),
        forall|u: int| 0 <= u < v ==> a[u] == b[u],
    ensures
        fresh_rank(a, v) == fresh_rank(b, v),
    decreases v,
{
    if v > 0 {
        lemma_fresh_rank_prefix(a, b, v - 1);
    }
}

} // verus!
