//! Enumeration of all inequivalent rules of a given signature, as
//! `EnumerateWolframModelRules` does.
//!
//! A *signature* gives the number of hyperedges of each arity on each side,
//! e.g. 2₂ → 3₂ (`{{2, 2}} -> {{3, 2}}` in WL notation) is two binary edges
//! rewriting to three. Two rules are equivalent if one becomes the other by
//! renaming elements and reordering edges within each side; the canonical
//! representative is the lexicographically first form with elements numbered
//! from 1 (wolframphysics.org, "The Representation of Rules").
//!
//! Output order is that of `EnumerateWolframModelRules`: by the
//! element-novelty pattern (which slots, scanning the rule left to right,
//! introduce a previously unseen element), then lexicographically.

use vstd::prelude::*;

use crate::error::Error;
use crate::rule::Atom;
use crate::rule::Rule;

verus! {

broadcast use vstd::seq_lib::lemma_seq_contains_after_push;

/// A rule signature: hyperedge `(count, arity)` groups for each side.
/// `{{2, 2}} -> {{3, 2}}` is `inputs: [(2, 2)], outputs: [(3, 2)]`.
#[derive(Debug, Clone, PartialEq, Eq)]
pub struct RuleSignature {
    pub inputs: Vec<(usize, usize)>,
    pub outputs: Vec<(usize, usize)>,
}

/// Connectivity constraints, as in `EnumerateWolframModelRules`.
#[derive(Debug, Clone, Copy, PartialEq, Eq)]
pub enum Connectivity {
    /// No constraint.
    NoConstraint,
    /// The default ("Automatic"): the left-hand side must be connected, and
    /// the rule as a whole (both sides together) must be connected.
    LeftConnected,
    /// "All": additionally the right-hand side must be connected on its own.
    All,
}

/// Enumeration options.
#[derive(Debug, Clone)]
pub struct EnumerationOptions {
    pub connectivity: Connectivity,
    /// Maximum number of distinct elements in a rule (`None` = unlimited).
    pub max_elements: Option<usize>,
}

impl Default for EnumerationOptions {
    /// Left-connected rules, any number of elements.
    fn default() -> (o: EnumerationOptions)
        ensures
            o.connectivity == Connectivity::LeftConnected,
            o.max_elements is None,
    {
        EnumerationOptions { connectivity: Connectivity::LeftConnected, max_elements: None }
    }
}

/// The first-occurrence renaming state after the first `k` entries of `s`:
/// the number given to each value seen, and how many values were seen.
pub open spec fn renumber_state(s: Seq<usize>, k: int) -> (Map<usize, usize>, nat)
    decreases k,
{
    if k <= 0 {
        (Map::empty(), 0)
    } else {
        let (m, n) = renumber_state(s, k - 1);
        if m.dom().contains(s[k - 1]) {
            (m, n)
        } else {
            (m.insert(s[k - 1], (n + 1) as usize), n + 1)
        }
    }
}

/// First-occurrence renumbering: each value becomes the number of distinct
/// values up to its first occurrence (`DelDup`-style numbering from 1).
pub open spec fn renumbered(s: Seq<usize>) -> Seq<usize> {
    Seq::new(s.len(), |i: int| renumber_state(s, i + 1).0[s[i]])
}

/// The largest of the first `k` entries (0 for none).
pub open spec fn prefix_max(s: Seq<usize>, k: int) -> usize
    decreases k,
{
    if k <= 0 {
        0
    } else {
        let m = prefix_max(s, k - 1);
        if s[k - 1] > m {
            s[k - 1]
        } else {
            m
        }
    }
}

/// Which entries exceed every earlier one (introduce a new element).
pub open spec fn novelty(s: Seq<usize>) -> Seq<bool> {
    Seq::new(s.len(), |i: int| s[i] > prefix_max(s, i))
}

/// Sum of a sequence.
pub open spec fn total(s: Seq<usize>) -> int
    decreases s.len(),
{
    if s.len() == 0 {
        0
    } else {
        total(s.drop_last()) + s.last()
    }
}

/// Consecutive slices of `slots` of the given lengths.
pub open spec fn slices(slots: Seq<usize>, arities: Seq<usize>) -> Seq<Seq<usize>>
    decreases arities.len(),
{
    if arities.len() == 0 {
        Seq::empty()
    } else {
        let at = total(arities.drop_last());
        slices(slots, arities.drop_last()).push(slots.subrange(at, at + arities.last()))
    }
}

/// The two sides of the rule whose slots are `slots`.
pub open spec fn split_rule(slots: Seq<usize>, lhs: Seq<usize>, rhs: Seq<usize>) -> (Seq<Seq<usize>>, Seq<Seq<usize>>) {
    let all = slices(slots, lhs + rhs);
    (all.take(lhs.len() as int), all.skip(lhs.len() as int))
}

/// The two edges share an element.
pub open spec fn share(a: Seq<usize>, b: Seq<usize>) -> bool {
    exists|x: usize| a.contains(x) && #[trigger] b.contains(x)
}

/// No edge inside `part` shares an element with an edge outside it.
pub open spec fn closed_part(es: Seq<Seq<usize>>, part: Set<int>) -> bool {
    forall|i: int, j: int|
        0 <= i < es.len() && 0 <= j < es.len() && #[trigger] part.contains(i) && !#[trigger] part.contains(j) ==> !share(
            es[i],
            es[j],
        )
}

/// The hyperedges form a single connected component: they cannot be split
/// into two nonempty groups sharing no element. Zero edges count as connected.
pub open spec fn connected(es: Seq<Seq<usize>>) -> bool {
    forall|part: Set<int>|
        #[trigger] closed_part(es, part) ==> (forall|i: int| 0 <= i < es.len() ==> part.contains(i)) || (forall|i: int|
            0 <= i < es.len() ==> !part.contains(i))
}

/// The connectivity constraint holds for the two sides.
pub open spec fn passes(lhs: Seq<Seq<usize>>, rhs: Seq<Seq<usize>>, c: Connectivity) -> bool {
    match c {
        Connectivity::NoConstraint => true,
        Connectivity::LeftConnected => connected(lhs) && connected(lhs + rhs),
        Connectivity::All => connected(lhs) && connected(rhs) && connected(lhs + rhs),
    }
}

/// `g` inserted into `sorted` after every group of arity at least its own.
pub open spec fn insert_by_arity(sorted: Seq<(usize, usize)>, g: (usize, usize)) -> Seq<(usize, usize)>
    decreases sorted.len(),
{
    if sorted.len() == 0 {
        seq![g]
    } else if sorted[0].1 < g.1 {
        seq![g] + sorted
    } else {
        seq![sorted[0]] + insert_by_arity(sorted.drop_first(), g)
    }
}

/// The groups sorted by descending arity, keeping the given order among
/// equal arities.
pub open spec fn sort_by_arity(gs: Seq<(usize, usize)>) -> Seq<(usize, usize)>
    decreases gs.len(),
{
    if gs.len() == 0 {
        Seq::empty()
    } else {
        insert_by_arity(sort_by_arity(gs.drop_last()), gs.last())
    }
}

/// One arity per edge of the groups, in group order.
pub open spec fn expand_groups(gs: Seq<(usize, usize)>) -> Seq<usize>
    decreases gs.len(),
{
    if gs.len() == 0 {
        Seq::empty()
    } else {
        expand_groups(gs.drop_last()) + Seq::new(gs.last().0 as nat, |i: int| gs.last().1)
    }
}

/// The edge arities of a signature side: groups by descending arity.
pub open spec fn side_arities(gs: Seq<(usize, usize)>) -> Seq<usize> {
    expand_groups(sort_by_arity(gs))
}

/// Some group has arity 0.
pub open spec fn has_zero_arity(gs: Seq<(usize, usize)>) -> bool {
    exists|i: int| 0 <= i < gs.len() && #[trigger] gs[i].1 == 0
}

/// Negated elements: canonical element `k` becomes pattern variable `-k`.
pub open spec fn to_variables(es: Seq<Seq<usize>>) -> Seq<Seq<Atom>> {
    es.map_values(|e: Seq<usize>| e.map_values(|k: usize| -(k as int) as Atom))
}

/// Absolute values: pattern variable `-k` becomes element `k`.
pub open spec fn to_elements(es: Seq<Seq<Atom>>) -> Seq<Seq<i64>> {
    es.map_values(|e: Seq<Atom>| e.map_values(|a: Atom| if a < 0 { (-a) as i64 } else { a }))
}


/// No atom is `i64::MIN`.
pub open spec fn no_min_atom(es: Seq<Seq<Atom>>) -> bool {
    forall|i: int, j: int| 0 <= i < es.len() && 0 <= j < es[i].len() ==> #[trigger] es[i][j] != i64::MIN
}

/// Absolute values of every atom.
fn absolute_edges(edges: &Vec<Vec<Atom>>) -> (r: Vec<Vec<i64>>)
    requires
        no_min_atom(crate::rule::edges_of(*edges)),
    ensures
        crate::rule::edges_of(r) == to_elements(crate::rule::edges_of(*edges)),
{
    let ghost src = crate::rule::edges_of(*edges);
    let mut out: Vec<Vec<i64>> = Vec::new();
    let mut i: usize = 0;
    while i < edges.len()
        invariant
            i <= edges.len(),
            src == crate::rule::edges_of(*edges),
            no_min_atom(src),
            out.len() == i,
            forall|k: int| 0 <= k < i ==> (#[trigger] out@[k])@ == to_elements(src)[k],
        decreases edges.len() - i,
    {
        let e = &edges[i];
        let mut row: Vec<i64> = Vec::new();
        let mut j: usize = 0;
        while j < e.len()
            invariant
                j <= e.len(),
                i < edges.len(),
                src == crate::rule::edges_of(*edges),
                e@ == src[i as int],
                no_min_atom(src),
                row.len() == j,
                forall|k: int| 0 <= k < j ==> #[trigger] row@[k] == (if e@[k] < 0 { (-e@[k]) as i64 } else { e@[k] }),
            decreases e.len() - j,
        {
            let a = e[j];
            assert(src[i as int][j as int] != i64::MIN);
            row.push(if a < 0 { -a } else { a });
            j = j + 1;
        }
        assert(row@ =~= to_elements(src)[i as int]);
        out.push(row);
        i = i + 1;
    }
    assert(crate::rule::edges_of(out) =~= to_elements(src));
    out
}

/// The canonical integer form (elements numbered from 1) of a rule produced
/// by [`enumerate_rules`]: the form `EnumerateWolframModelRules` prints.
/// Inverse of the variable encoding.
pub fn canonical_integer_form(rule: &Rule) -> (r: (Vec<Vec<i64>>, Vec<Vec<i64>>))
    requires
        no_min_atom(rule.spec_inputs()),
        no_min_atom(rule.spec_outputs()),
    ensures
        crate::rule::edges_of(r.0) == to_elements(rule.spec_inputs()),
        crate::rule::edges_of(r.1) == to_elements(rule.spec_outputs()),
{
    (absolute_edges(&rule.inputs), absolute_edges(&rule.outputs))
}

/// First-occurrence renumbering of a flat element sequence.
fn renumber_flat(flat: &Vec<usize>) -> (r: Vec<usize>)
    ensures
        r@ == renumbered(flat@),
{
    let mut keys: Vec<usize> = Vec::new();
    let mut vals: Vec<usize> = Vec::new();
    let mut out: Vec<usize> = Vec::new();
    let mut next: usize = 0;
    let mut i: usize = 0;
    while i < flat.len()
        invariant
            i <= flat.len(),
            keys.len() == vals.len(),
            next == renumber_state(flat@, i as int).1,
            next <= i,
            keys@.no_duplicates(),
            forall|v: usize| #[trigger] renumber_state(flat@, i as int).0.dom().contains(v) <==> keys@.contains(v),
            forall|k: int| 0 <= k < keys.len() ==> renumber_state(flat@, i as int).0[#[trigger] keys@[k]] == vals@[k],
            out.len() == i,
            forall|k: int| 0 <= k < i ==> #[trigger] out@[k] == renumbered(flat@)[k],
        decreases flat.len() - i,
    {
        let x = flat[i];
        let mut k: usize = 0;
        let mut found: Option<usize> = None;
        while k < keys.len()
            invariant
                k <= keys.len(),
                keys.len() == vals.len(),
                found is None ==> forall|q: int| 0 <= q < k ==> keys@[q] != x,
                found matches Some(q) ==> q < keys.len() && keys@[q as int] == x,
            decreases keys.len() - k,
        {
            if found.is_none() && keys[k] == x {
                found = Some(k);
            }
            k = k + 1;
        }
        let ghost st = renumber_state(flat@, i as int);
        match found {
            Some(q) => {
                out.push(vals[q]);
                proof {
                    assert(st.0.dom().contains(x));
                    assert(renumber_state(flat@, i + 1) == st);
                }
            },
            None => {
                let ghost keys0 = keys@;
                let ghost vals0 = vals@;
                next = next + 1;
                keys.push(x);
                vals.push(next);
                out.push(next);
                proof {
                    assert(!st.0.dom().contains(x));
                    assert(!keys0.contains(x));
                    assert forall|v: usize| #[trigger] renumber_state(flat@, i + 1).0.dom().contains(v) <==> keys@.contains(v) by {
                        if v != x && keys@.contains(v) {
                            let q = choose|q: int| 0 <= q < keys.len() && keys@[q] == v;
                            assert(keys0[q] == v);
                            assert(keys0.contains(v));
                        }
                        if v != x && renumber_state(flat@, i + 1).0.dom().contains(v) {
                            assert(st.0.dom().contains(v));
                            assert(keys0.contains(v));
                        }
                    }
                    assert forall|k: int| 0 <= k < keys.len() implies renumber_state(flat@, i + 1).0[#[trigger] keys@[k]] == vals@[k] by {
                        if k < keys0.len() {
                            assert(keys@[k] == keys0[k]);
                            assert(keys0[k] != x);
                        }
                    }
                }
            },
        }
        i = i + 1;
    }
    assert(out@ =~= renumbered(flat@));
    out
}

/// Which slots introduce a previously unseen element.
fn novelty_pattern(slots: &Vec<usize>) -> (r: Vec<bool>)
    ensures
        r@ == novelty(slots@),
{
    let mut seen: usize = 0;
    let mut out: Vec<bool> = Vec::new();
    let mut i: usize = 0;
    while i < slots.len()
        invariant
            i <= slots.len(),
            seen == prefix_max(slots@, i as int),
            out.len() == i,
            forall|k: int| 0 <= k < i ==> #[trigger] out@[k] == novelty(slots@)[k],
        decreases slots.len() - i,
    {
        let v = slots[i];
        if v > seen {
            seen = v;
            out.push(true);
        } else {
            out.push(false);
        }
        i = i + 1;
    }
    assert(out@ =~= novelty(slots@));
    out
}


/// The views of a list of element edges.
pub open spec fn element_edges(v: Seq<Vec<usize>>) -> Seq<Seq<usize>> {
    v.map_values(|e: Vec<usize>| e@)
}

/// Inserting after the prefix of groups of arity at least `g`'s.
proof fn lemma_insert_by_arity(sorted: Seq<(usize, usize)>, g: (usize, usize), p: int)
    requires
        0 <= p <= sorted.len(),
        forall|k: int| 0 <= k < p ==> #[trigger] sorted[k].1 >= g.1,
        p == sorted.len() || sorted[p].1 < g.1,
    ensures
        insert_by_arity(sorted, g) == sorted.take(p) + seq![g] + sorted.skip(p),
    decreases sorted.len(),
{
    if sorted.len() == 0 {
        assert(sorted.take(p) + seq![g] + sorted.skip(p) =~= seq![g]);
    } else if p == 0 {
        assert(sorted.take(p) + seq![g] + sorted.skip(p) =~= seq![g] + sorted);
    } else {
        let rest = sorted.drop_first();
        assert forall|k: int| 0 <= k < p - 1 implies #[trigger] rest[k].1 >= g.1 by {
            assert(rest[k] == sorted[k + 1]);
        }
        lemma_insert_by_arity(rest, g, p - 1);
        assert(sorted.take(p) + seq![g] + sorted.skip(p) =~= seq![sorted[0]] + (rest.take(p - 1) + seq![g] + rest.skip(p - 1)));
    }
}

/// The edge arities of a signature side: groups sorted by descending arity
/// (stable), each group contributing `count` edges of its arity.
fn expand_signature_side(groups: &Vec<(usize, usize)>) -> (r: Result<Vec<usize>, Error>)
    ensures
        r is Err <==> has_zero_arity(groups@),
        r matches Err(e) ==> e is InvalidRule && e->InvalidRule_0@ == "signature arities must be at least 1"@,
        r matches Ok(v) ==> v@ == side_arities(groups@),
{
    let mut i: usize = 0;
    while i < groups.len()
        invariant
            i <= groups.len(),
            forall|k: int| 0 <= k < i ==> #[trigger] groups@[k].1 != 0,
        decreases groups.len() - i,
    {
        if groups[i].1 == 0 {
            assert(groups@[i as int].1 == 0);
            return Err(Error::InvalidRule(String::from_str("signature arities must be at least 1")));
        }
        i = i + 1;
    }
    let mut sorted: Vec<(usize, usize)> = Vec::new();
    let mut n: usize = 0;
    while n < groups.len()
        invariant
            n <= groups.len(),
            sorted@ == sort_by_arity(groups@.take(n as int)),
        decreases groups.len() - n,
    {
        let g = groups[n];
        let mut p: usize = 0;
        while p < sorted.len() && sorted[p].1 >= g.1
            invariant
                p <= sorted.len(),
                forall|k: int| 0 <= k < p ==> #[trigger] sorted@[k].1 >= g.1,
            decreases sorted.len() - p,
        {
            p = p + 1;
        }
        proof {
            lemma_insert_by_arity(sorted@, g, p as int);
            assert(groups@.take(n + 1).drop_last() =~= groups@.take(n as int));
        }
        let ghost before = sorted@;
        sorted.insert(p, g);
        proof {
            assert(sorted@ =~= before.take(p as int) + seq![g] + before.skip(p as int));
        }
        n = n + 1;
    }
    proof {
        assert(groups@.take(groups.len() as int) =~= groups@);
    }
    let mut out: Vec<usize> = Vec::new();
    let mut k: usize = 0;
    while k < sorted.len()
        invariant
            k <= sorted.len(),
            out@ == expand_groups(sorted@.take(k as int)),
        decreases sorted.len() - k,
    {
        let (count, arity) = sorted[k];
        let ghost base = out@;
        let mut c: usize = 0;
        while c < count
            invariant
                c <= count,
                out@ == base + Seq::new(c as nat, |q: int| arity),
            decreases count - c,
        {
            out.push(arity);
            proof {
                assert(out@ =~= base + Seq::new((c + 1) as nat, |q: int| arity));
            }
            c = c + 1;
        }
        proof {
            assert(sorted@.take(k + 1).drop_last() =~= sorted@.take(k as int));
        }
        k = k + 1;
    }
    proof {
        assert(sorted@.take(sorted.len() as int) =~= sorted@);
    }
    Ok(out)
}

proof fn lemma_total_prefix(s: Seq<usize>, k: int)
    requires
        0 <= k <= s.len(),
    ensures
        0 <= total(s.take(k)) <= total(s),
    decreases s.len(),
{
    if s.len() > 0 {
        if k == s.len() {
            assert(s.take(k) =~= s);
            lemma_total_prefix(s.drop_last(), k - 1);
        } else {
            assert(s.take(k) =~= s.drop_last().take(k));
            lemma_total_prefix(s.drop_last(), k);
        }
    }
}

/// Splits the slots into the rule's edges: consecutive slices of the left
/// arities, then of the right arities.
fn split_edges(slots: &Vec<usize>, lhs: &Vec<usize>, rhs: &Vec<usize>) -> (r: (Vec<Vec<usize>>, Vec<Vec<usize>>))
    requires
        slots.len() == total(lhs@ + rhs@),
        lhs.len() + rhs.len() <= usize::MAX,
    ensures
        (element_edges(r.0@), element_edges(r.1@)) == split_rule(slots@, lhs@, rhs@),
{
    let ghost all = lhs@ + rhs@;
    let mut edges: Vec<Vec<usize>> = Vec::new();
    let mut at: usize = 0;
    let mut k: usize = 0;
    let n = lhs.len() + rhs.len();
    while k < n
        invariant
            k <= n,
            n == all.len(),
            all == lhs@ + rhs@,
            slots.len() == total(all),
            at == total(all.take(k as int)),
            edges.len() == k,
            element_edges(edges@) == slices(slots@, all.take(k as int)),
        decreases n - k,
    {
        let arity = if k < lhs.len() {
            lhs[k]
        } else {
            rhs[k - lhs.len()]
        };
        proof {
            assert(arity == all[k as int]);
            assert(all.take(k + 1).drop_last() =~= all.take(k as int));
            lemma_total_prefix(all, k + 1);
        }
        let mut e: Vec<usize> = Vec::new();
        let mut j: usize = 0;
        while j < arity
            invariant
                j <= arity,
                at + arity <= slots.len(),
                e@ == slots@.subrange(at as int, at + j),
            decreases arity - j,
        {
            e.push(slots[at + j]);
            proof {
                assert(e@ =~= slots@.subrange(at as int, at + j + 1));
            }
            j = j + 1;
        }
        let ghost before = element_edges(edges@);
        edges.push(e);
        proof {
            assert(element_edges(edges@) =~= before.push(e@));
        }
        at = at + arity;
        k = k + 1;
    }
    proof {
        assert(all.take(n as int) =~= all);
    }
    let mut left: Vec<Vec<usize>> = Vec::new();
    let mut right: Vec<Vec<usize>> = Vec::new();
    let ghost ev = element_edges(edges@);
    let mut q: usize = 0;
    while q < edges.len()
        invariant
            q <= edges.len(),
            ev == element_edges(edges@),
            edges.len() == lhs.len() + rhs.len(),
            q <= lhs.len() ==> element_edges(left@) == ev.take(q as int) && right.len() == 0,
            q > lhs.len() ==> element_edges(left@) == ev.take(lhs.len() as int) && element_edges(right@) == ev.subrange(
                lhs.len() as int,
                q as int,
            ),
        decreases edges.len() - q,
    {
        let e = edges[q].clone();
        proof {
            assert(e@ == edges@[q as int]@);
        }
        if q < lhs.len() {
            let ghost before = element_edges(left@);
            left.push(e);
            proof {
                assert(element_edges(left@) =~= ev.take(q + 1));
            }
        } else {
            let ghost before = element_edges(right@);
            right.push(e);
            proof {
                if q == lhs.len() {
                    assert(element_edges(right@) =~= ev.subrange(lhs.len() as int, q + 1));
                } else {
                    assert(element_edges(right@) =~= ev.subrange(lhs.len() as int, q + 1));
                }
            }
        }
        q = q + 1;
    }
    proof {
        if lhs.len() == edges.len() {
            assert(element_edges(right@) =~= ev.skip(lhs.len() as int));
        } else {
            assert(ev.subrange(lhs.len() as int, edges.len() as int) =~= ev.skip(lhs.len() as int));
        }
    }
    (left, right)
}

/// Whether two edges share an element.
fn edges_share(a: &Vec<usize>, b: &Vec<usize>) -> (r: bool)
    ensures
        r == share(a@, b@),
{
    let mut i: usize = 0;
    while i < a.len()
        invariant
            i <= a.len(),
            forall|k: int| 0 <= k < i ==> !b@.contains(#[trigger] a@[k]),
        decreases a.len() - i,
    {
        let x = a[i];
        let mut j: usize = 0;
        while j < b.len()
            invariant
                j <= b.len(),
                i < a.len(),
                x == a@[i as int],
                forall|k: int| 0 <= k < j ==> b@[k] != x,
            decreases b.len() - j,
        {
            if b[j] == x {
                proof {
                    assert(a@.contains(x) && b@.contains(x));
                }
                return true;
            }
            j = j + 1;
        }
        i = i + 1;
    }
    proof {
        assert forall|x: usize| !(a@.contains(x) && #[trigger] b@.contains(x)) by {
            if a@.contains(x) {
                let k = choose|k: int| 0 <= k < a.len() && a@[k] == x;
            }
        }
    }
    false
}

proof fn lemma_count_zero(s: Seq<bool>)
    requires
        forall|q: int| 0 <= q < s.len() ==> !s[q],
    ensures
        count_true(s) == 0,
    decreases s.len(),
{
    if s.len() > 0 {
        lemma_count_zero(s.drop_last());
    }
}

/// Number of `true` entries.
pub open spec fn count_true(s: Seq<bool>) -> nat
    decreases s.len(),
{
    if s.len() == 0 {
        0
    } else {
        count_true(s.drop_last()) + if s.last() {
            1nat
        } else {
            0nat
        }
    }
}

proof fn lemma_count_true(s: Seq<bool>, j: int)
    requires
        0 <= j < s.len(),
        !s[j],
    ensures
        count_true(s.update(j, true)) == count_true(s) + 1,
        count_true(s) < s.len(),
    decreases s.len(),
{
    if j < s.len() - 1 {
        assert(s.update(j, true).drop_last() =~= s.drop_last().update(j, true));
        lemma_count_true(s.drop_last(), j);
    } else {
        assert(s.update(j, true).drop_last() =~= s.drop_last());
        lemma_count_bound(s.drop_last());
    }
}

proof fn lemma_count_bound(s: Seq<bool>)
    ensures
        count_true(s) <= s.len(),
    decreases s.len(),
{
    if s.len() > 0 {
        lemma_count_bound(s.drop_last());
    }
}

/// Whether the hyperedges form a single connected component (see
/// [`connected`]). Grows the component of the first edge by adding every
/// edge sharing an element with it.
fn edges_connected(edges: &Vec<Vec<usize>>) -> (r: bool)
    ensures
        r == connected(element_edges(edges@)),
{
    let ghost es = element_edges(edges@);
    let n = edges.len();
    if n <= 1 {
        proof {
            assert forall|part: Set<int>| #[trigger] closed_part(es, part) implies (forall|i: int| 0 <= i < es.len() ==> part.contains(i)) || (forall|i: int|
                0 <= i < es.len() ==> !part.contains(i)) by {
                if n == 1 && !part.contains(0) {
                    assert forall|i: int| 0 <= i < es.len() implies !part.contains(i) by {
                        assert(i == 0);
                    }
                }
            }
        }
        return true;
    }
    let mut member: Vec<bool> = Vec::new();
    let mut c: usize = 0;
    while c < n
        invariant
            c <= n,
            member.len() == c,
            forall|k: int| 0 <= k < c ==> #[trigger] member@[k] == (k == 0),
        decreases n - c,
    {
        member.push(c == 0);
        c = c + 1;
    }
    let mut order: Vec<usize> = Vec::new();
    order.push(0);
    proof {
        let m = member@;
        assert(m =~= m.update(0, true));
        let m0 = Seq::new(n as nat, |q: int| false);
        assert forall|q: int| 0 <= q < n as int implies m0.update(0, true)[q] == m[q] by {}
        assert(m0.update(0, true) =~= m);
        assert(count_true(m0) == 0) by {
            lemma_count_zero(m0);
        }
        lemma_count_true(m0, 0);
    }
    let mut k: usize = 0;
    while k < order.len()
        invariant
            order.len() == count_true(member@),
            n == edges.len(),
            n == es.len(),
            es == element_edges(edges@),
            member.len() == n,
            member@[0],
            order.len() <= n,
            k <= order.len(),
            order@.no_duplicates(),
            forall|q: int| 0 <= q < order.len() ==> #[trigger] order@[q] < n,
            forall|i: int| 0 <= i < n ==> (#[trigger] member@[i] <==> order@.contains(i as usize)),
            forall|part: Set<int>|
                #[trigger] closed_part(es, part) && part.contains(0) ==> forall|i: int| 0 <= i < n && #[trigger] member@[i] ==> part.contains(i),
            forall|q: int, j: int|
                0 <= q < k && 0 <= j < n && !#[trigger] member@[j] ==> !share(es[#[trigger] order@[q] as int], es[j]),
        decreases n - k,
    {
        let i = order[k];
        let mut j: usize = 0;
        while j < n
            invariant
                n == edges.len(),
                n == es.len(),
                es == element_edges(edges@),
                member.len() == n,
                member@[0],
                i < n,
                i == order@[k as int],
                k < order.len(),
                order.len() <= n,
                order.len() == count_true(member@),
                order@.no_duplicates(),
                forall|q: int| 0 <= q < order.len() ==> #[trigger] order@[q] < n,
                forall|ii: int| 0 <= ii < n ==> (#[trigger] member@[ii] <==> order@.contains(ii as usize)),
                forall|part: Set<int>|
                    #[trigger] closed_part(es, part) && part.contains(0) ==> forall|ii: int| 0 <= ii < n && #[trigger] member@[ii] ==> part.contains(ii),
                forall|q: int, jj: int|
                    0 <= q < k && 0 <= jj < n && !#[trigger] member@[jj] ==> !share(es[#[trigger] order@[q] as int], es[jj]),
                forall|jj: int| 0 <= jj < j && !#[trigger] member@[jj] ==> !share(es[i as int], es[jj]),
            decreases n - j,
        {
            if !member[j] && edges_share(&edges[i], &edges[j]) {
                let ghost m0 = member@;
                let ghost o0 = order@;
                member.set(j, true);
                proof {
                    assert(!o0.contains(j));
                    lemma_count_true(m0, j as int);
                    lemma_count_bound(member@);
                }
                order.push(j);
                proof {
                    assert(order@.no_duplicates());
                    assert forall|part: Set<int>| #[trigger] closed_part(es, part) && part.contains(0) implies forall|ii: int|
                        0 <= ii < n && #[trigger] member@[ii] ==> part.contains(ii) by {
                        assert(m0[i as int]);
                        assert(part.contains(i as int));
                        if !part.contains(j as int) {
                            assert(!share(es[i as int], es[j as int]));
                        }
                    }
                }
            }
            j = j + 1;
        }
        k = k + 1;
    }
    let mut all = true;
    let mut t: usize = 0;
    while t < n
        invariant
            t <= n,
            member.len() == n,
            all == forall|q: int| 0 <= q < t ==> #[trigger] member@[q],
        decreases n - t,
    {
        if !member[t] {
            all = false;
        }
        t = t + 1;
    }
    proof {
        let comp = Set::new(|i: int| 0 <= i < n && member@[i]);
        assert(closed_part(es, comp)) by {
            assert forall|i: int, j: int|
                0 <= i < es.len() && 0 <= j < es.len() && #[trigger] comp.contains(i) && !#[trigger] comp.contains(j) implies !share(
                es[i],
                es[j],
            ) by {
                assert(order@.contains(i as usize));
                let q = choose|q: int| 0 <= q < order.len() && order@[q] == i as usize;
                assert(!member@[j]);
            }
        }
        if all {
            assert forall|part: Set<int>| #[trigger] closed_part(es, part) implies (forall|i: int| 0 <= i < es.len() ==> part.contains(i))
                || (forall|i: int| 0 <= i < es.len() ==> !part.contains(i)) by {
                if part.contains(0) {
                    assert forall|i: int| 0 <= i < es.len() implies part.contains(i) by {
                        assert(member@[i]);
                    }
                } else {
                    let other = Set::new(|i: int| !part.contains(i));
                    assert(closed_part(es, other)) by {
                        assert forall|i: int, j: int|
                            0 <= i < es.len() && 0 <= j < es.len() && #[trigger] other.contains(i) && !#[trigger] other.contains(j) implies !share(
                            es[i],
                            es[j],
                        ) by {
                            if share(es[i], es[j]) {
                                let x = choose|x: usize| es[i].contains(x) && #[trigger] es[j].contains(x);
                                assert(share(es[j], es[i]));
                            }
                        }
                    }
                    assert forall|i: int| 0 <= i < es.len() implies !part.contains(i) by {
                        assert(member@[i]);
                        assert(other.contains(i));
                    }
                }
            }
        } else {
            let t0 = choose|q: int| 0 <= q < n && !member@[q];
            assert(!comp.contains(t0));
            assert(comp.contains(0));
        }
    }
    all
}

/// Whether the two sides meet the connectivity constraint.
fn passes_connectivity(lhs: &Vec<Vec<usize>>, rhs: &Vec<Vec<usize>>, connectivity: Connectivity) -> (r: bool)
    requires
        lhs.len() + rhs.len() <= usize::MAX,
    ensures
        r == passes(element_edges(lhs@), element_edges(rhs@), connectivity),
{
    match connectivity {
        Connectivity::NoConstraint => true,
        Connectivity::LeftConnected => {
            let both = concat_edges(lhs, rhs);
            edges_connected(lhs) && edges_connected(&both)
        },
        Connectivity::All => {
            let both = concat_edges(lhs, rhs);
            edges_connected(lhs) && edges_connected(rhs) && edges_connected(&both)
        },
    }
}

/// Copies of the edges of `a`, then of `b`.
fn concat_edges(a: &Vec<Vec<usize>>, b: &Vec<Vec<usize>>) -> (r: Vec<Vec<usize>>)
    requires
        a.len() + b.len() <= usize::MAX,
    ensures
        element_edges(r@) == element_edges(a@) + element_edges(b@),
{
    let mut out: Vec<Vec<usize>> = Vec::new();
    let mut i: usize = 0;
    let n = a.len() + b.len();
    while i < n
        invariant
            n == a.len() + b.len(),
            i <= a.len() + b.len(),
            element_edges(out@) == (element_edges(a@) + element_edges(b@)).take(i as int),
        decreases n - i,
    {
        let e = if i < a.len() {
            a[i].clone()
        } else {
            b[i - a.len()].clone()
        };
        proof {
            if i < a.len() {
                assert(e@ == a@[i as int]@);
            } else {
                assert(e@ == b@[i - a.len()]@);
            }
        }
        let ghost before = element_edges(out@);
        out.push(e);
        proof {
            assert(element_edges(out@) =~= before.push(e@));
            assert((element_edges(a@) + element_edges(b@)).take(i + 1) =~= (element_edges(a@) + element_edges(b@)).take(i as int).push(e@));
        }
        i = i + 1;
    }
    proof {
        assert((element_edges(a@) + element_edges(b@)).take((a.len() + b.len()) as int) =~= element_edges(a@) + element_edges(b@));
    }
    out
}


/// Identical edges of a group gathered in first-appearance order, each with
/// its number of occurrences.
pub open spec fn gather(g: Seq<Seq<usize>>) -> Seq<(Seq<usize>, nat)>
    decreases g.len(),
{
    if g.len() == 0 {
        Seq::empty()
    } else {
        let d = gather(g.drop_last());
        let e = g.last();
        match find_gathered(d, e, d.len() as int) {
            Some(k) => d.update(k, (e, d[k].1 + 1)),
            None => d.push((e, 1nat)),
        }
    }
}

/// The first of the first `n` gathered entries holding edge `e`.
pub open spec fn find_gathered(d: Seq<(Seq<usize>, nat)>, e: Seq<usize>, n: int) -> Option<int>
    decreases n,
{
    if n <= 0 {
        None
    } else {
        match find_gathered(d, e, n - 1) {
            Some(k) => Some(k),
            None => if d[n - 1].0 == e {
                Some(n - 1)
            } else {
                None
            },
        }
    }
}

/// The elements of the gathered edges picked by `s`.
pub open spec fn covered(d: Seq<(Seq<usize>, nat)>, s: Seq<usize>) -> Set<usize> {
    Set::new(|x: usize| exists|j: int| 0 <= j < s.len() && (#[trigger] d[s[j] as int]).0.contains(x))
}

/// How many elements the gathered edges picked by `s` cover.
pub open spec fn cover_count(d: Seq<(Seq<usize>, nat)>, s: Seq<usize>) -> nat {
    covered(d, s).len()
}

/// The smallest cover count among `seqs` (0 for none).
pub open spec fn min_cover(d: Seq<(Seq<usize>, nat)>, seqs: Seq<Seq<usize>>) -> nat
    decreases seqs.len(),
{
    if seqs.len() == 0 {
        0
    } else if seqs.len() == 1 {
        cover_count(d, seqs[0])
    } else {
        let m = min_cover(d, seqs.drop_last());
        let c = cover_count(d, seqs.last());
        if c < m {
            c
        } else {
            m
        }
    }
}

/// Whether an ordering covers exactly `m` elements.
pub open spec fn covers_exactly(d: Seq<(Seq<usize>, nat)>, m: nat) -> spec_fn(Seq<usize>) -> bool {
    |s: Seq<usize>| cover_count(d, s) == m
}

/// `s` extended by each index below `k` it does not hold, in increasing order.
pub open spec fn extensions(s: Seq<usize>, k: nat) -> Seq<Seq<usize>>
    decreases k,
{
    if k == 0 {
        Seq::empty()
    } else {
        let prev = extensions(s, (k - 1) as nat);
        if s.contains((k - 1) as usize) {
            prev
        } else {
            prev.push(s.push((k - 1) as usize))
        }
    }
}

/// Every sequence of `seqs` extended by every unused index below `m`.
pub open spec fn extend_all(seqs: Seq<Seq<usize>>, m: nat) -> Seq<Seq<usize>>
    decreases seqs.len(),
{
    if seqs.len() == 0 {
        Seq::empty()
    } else {
        extend_all(seqs.drop_last(), m) + extensions(seqs.last(), m)
    }
}

/// The orderings of gathered edges kept after `t` greedy rounds: start from
/// each edge alone; each round keeps the orderings covering the fewest
/// elements and extends each by every unused edge.
pub open spec fn greedy(d: Seq<(Seq<usize>, nat)>, t: nat) -> Seq<Seq<usize>>
    decreases t,
{
    if t == 0 {
        Seq::new(d.len(), |i: int| seq![i as usize])
    } else {
        let prev = greedy(d, (t - 1) as nat);
        extend_all(prev.filter(covers_exactly(d, min_cover(d, prev))), d.len())
    }
}

/// Concatenation of edges.
pub open spec fn flat(es: Seq<Seq<usize>>) -> Seq<usize>
    decreases es.len(),
{
    if es.len() == 0 {
        Seq::empty()
    } else {
        flat(es.drop_last()) + es.last()
    }
}

/// The arrangement of a group for an ordering `s` of its gathered edges:
/// each edge repeated as many times as it occurs.
pub open spec fn arrangement(d: Seq<(Seq<usize>, nat)>, s: Seq<usize>) -> Seq<Seq<usize>>
    decreases s.len(),
{
    if s.len() == 0 {
        Seq::empty()
    } else {
        let e = d[s.last() as int];
        arrangement(d, s.drop_last()) + Seq::new(e.1, |i: int| e.0)
    }
}

/// The group-local renumbered form of an arrangement.
pub open spec fn arrangement_key(a: Seq<Seq<usize>>) -> Seq<usize> {
    renumbered(flat(a))
}

/// The arrangements of a group that the greedy search reaches.
pub open spec fn reached(g: Seq<Seq<usize>>) -> Set<Seq<Seq<usize>>> {
    let d = gather(g);
    Set::new(|a: Seq<Seq<usize>>| exists|s: Seq<usize>| #[trigger] greedy(d, (d.len() - 1) as nat).contains(s) && a == arrangement(d, s))
}

/// `k` is the lexicographically smallest key of the reached arrangements.
pub open spec fn is_min_key(g: Seq<Seq<usize>>, k: Seq<usize>) -> bool {
    &&& exists|a: Seq<Seq<usize>>| #[trigger] reached(g).contains(a) && arrangement_key(a) == k
    &&& forall|a: Seq<Seq<usize>>| #[trigger] reached(g).contains(a) ==> crate::ordering::lex_order(k, arrangement_key(a)) <= 0
}

/// The candidate orderings of an arity group (`MiserTermsInTuples`): the
/// reached arrangements whose group-local renumbered form is smallest.
pub open spec fn miser(g: Seq<Seq<usize>>) -> Set<Seq<Seq<usize>>> {
    Set::new(|a: Seq<Seq<usize>>| reached(g).contains(a) && is_min_key(g, arrangement_key(a)))
}

proof fn lemma_find_none(d: Seq<(Seq<usize>, nat)>, e: Seq<usize>, n: int)
    requires
        n <= d.len(),
        forall|k: int| 0 <= k < n ==> #[trigger] d[k].0 != e,
    ensures
        find_gathered(d, e, n) is None,
    decreases n,
{
    if n > 0 {
        lemma_find_none(d, e, n - 1);
    }
}

proof fn lemma_find_some(d: Seq<(Seq<usize>, nat)>, e: Seq<usize>, n: int, m: int)
    requires
        n <= m,
        find_gathered(d, e, n) is Some,
    ensures
        find_gathered(d, e, m) == find_gathered(d, e, n),
    decreases m - n,
{
    if n < m {
        lemma_find_some(d, e, n, m - 1);
    }
}

/// Equality of two edges.
fn same_edge(a: &Vec<usize>, b: &Vec<usize>) -> (r: bool)
    ensures
        r == (a@ == b@),
{
    proof {
        crate::ordering::lemma_lex_order_basics(a@, b@);
    }
    crate::ordering::lex_compare(a, b) == 0
}

/// Identical edges gathered in first-appearance order with their counts.
fn gather_edges(group: &Vec<Vec<usize>>) -> (r: Vec<(Vec<usize>, usize)>)
    ensures
        r@.len() == gather(element_edges(group@)).len(),
        forall|k: int| 0 <= k < r.len() ==> (#[trigger] r@[k]).0@ == gather(element_edges(group@))[k].0 && r@[k].1
            == gather(element_edges(group@))[k].1,
{
    let ghost g = element_edges(group@);
    let mut d: Vec<(Vec<usize>, usize)> = Vec::new();
    let mut i: usize = 0;
    while i < group.len()
        invariant
            i <= group.len(),
            g == element_edges(group@),
            d@.len() == gather(g.take(i as int)).len(),
            forall|k: int| 0 <= k < d.len() ==> (#[trigger] d@[k]).0@ == gather(g.take(i as int))[k].0 && d@[k].1
                == gather(g.take(i as int))[k].1 && d@[k].1 <= i,
            forall|k: int, q: int| 0 <= k < q < d.len() ==> (#[trigger] d@[k]).0@ != (#[trigger] d@[q]).0@,
        decreases group.len() - i,
    {
        let ghost gi = gather(g.take(i as int));
        proof {
            assert(g.take(i + 1).drop_last() =~= g.take(i as int));
            assert(g.take(i + 1).last() == group@[i as int]@);
        }
        let e = &group[i];
        let mut k: usize = 0;
        let mut found: Option<usize> = None;
        while k < d.len()
            invariant
                k <= d.len(),
                found is None ==> forall|q: int| 0 <= q < k ==> (#[trigger] d@[q]).0@ != e@,
                found matches Some(q) ==> q < d.len() && d@[q as int].0@ == e@,
            decreases d.len() - k,
        {
            if found.is_none() && same_edge(&d[k].0, e) {
                found = Some(k);
            }
            k = k + 1;
        }
        match found {
            Some(q) => {
                proof {
                    assert(gi[q as int].0 == e@);
                    assert forall|k: int| 0 <= k < q implies #[trigger] gi[k].0 != e@ by {
                        assert(d@[k].0@ != d@[q as int].0@);
                    }
                    lemma_find_none(gi, e@, q as int);
                    assert(find_gathered(gi, e@, q as int + 1) == Some(q as int));
                    lemma_find_some(gi, e@, q as int + 1, gi.len() as int);
                }
                let ghost d0 = d@;
                let (edge, count) = d.remove(q);
                d.insert(q, (edge, count + 1));
                proof {
                    assert(d@ =~= d0.update(q as int, (d0[q as int].0, (count + 1) as usize)));
                }
            },
            None => {
                proof {
                    assert forall|kk: int| 0 <= kk < gi.len() implies #[trigger] gi[kk].0 != e@ by {
                        assert(d@[kk].0@ != e@);
                    }
                    lemma_find_none(gi, e@, gi.len() as int);
                }
                let c = e.clone();
                proof {
                    assert(c@ == e@);
                }
                d.push((c, 1));
            },
        }
        i = i + 1;
    }
    proof {
        assert(g.take(group.len() as int) =~= g);
    }
    d
}


/// The gathered edges `d` hold the edges and counts of `dv`.
pub open spec fn gathered_view(d: Seq<(Vec<usize>, usize)>, dv: Seq<(Seq<usize>, nat)>) -> bool {
    &&& d.len() == dv.len()
    &&& forall|k: int| 0 <= k < d.len() ==> (#[trigger] d[k]).0@ == dv[k].0 && d[k].1 == dv[k].1
}

/// Number of distinct elements covered by the gathered edges picked by `s`.
fn cover_count_of(d: &Vec<(Vec<usize>, usize)>, Ghost(dv): Ghost<Seq<(Seq<usize>, nat)>>, s: &Vec<usize>) -> (r: usize)
    requires
        gathered_view(d@, dv),
        forall|j: int| 0 <= j < s.len() ==> #[trigger] s@[j] < d.len(),
    ensures
        r == cover_count(dv, s@),
{
    let mut els: Vec<usize> = Vec::new();
    let mut j: usize = 0;
    while j < s.len()
        invariant
            j <= s.len(),
            gathered_view(d@, dv),
            forall|q: int| 0 <= q < s.len() ==> #[trigger] s@[q] < d.len(),
            els@.no_duplicates(),
            forall|x: usize| #[trigger] els@.contains(x) <==> covered(dv, s@.take(j as int)).contains(x),
        decreases s.len() - j,
    {
        let e = &d[s[j]].0;
        let ghost cj = covered(dv, s@.take(j as int));
        let mut k: usize = 0;
        while k < e.len()
            invariant
                k <= e.len(),
                j < s.len(),
                e@ == dv[s@[j as int] as int].0,
                els@.no_duplicates(),
                forall|x: usize| #[trigger] els@.contains(x) <==> (cj.contains(x) || e@.take(k as int).contains(x)),
            decreases e.len() - k,
        {
            let x = e[k];
            proof {
                assert(e@.take(k + 1) =~= e@.take(k as int).push(x));
            }
            if !crate::system::ids_contain(&els, x) {
                els.push(x);
            }
            k = k + 1;
        }
        proof {
            assert(e@.take(e.len() as int) =~= e@);
            assert forall|x: usize| #[trigger] covered(dv, s@.take(j + 1)).contains(x) <==> (cj.contains(x) || e@.contains(x)) by {
                let t1 = s@.take(j + 1);
                let t0 = s@.take(j as int);
                if covered(dv, t1).contains(x) {
                    let q = choose|q: int| 0 <= q < t1.len() && (#[trigger] dv[t1[q] as int]).0.contains(x);
                    if q < j {
                        assert(t0[q] == t1[q]);
                        assert(covered(dv, t0).contains(x));
                    }
                }
                if cj.contains(x) {
                    let q = choose|q: int| 0 <= q < t0.len() && (#[trigger] dv[t0[q] as int]).0.contains(x);
                    assert(t1[q] == t0[q]);
                    assert(covered(dv, t1).contains(x));
                }
                if e@.contains(x) {
                    assert(t1[j as int] == s@[j as int]);
                    assert(covered(dv, t1).contains(x));
                }
            }
        }
        j = j + 1;
    }
    proof {
        assert(s@.take(s.len() as int) =~= s@);
        assert(els@.to_set() =~= covered(dv, s@));
        els@.unique_seq_to_set();
    }
    els.len()
}

/// The smallest cover count among the orderings.
fn min_cover_of(d: &Vec<(Vec<usize>, usize)>, Ghost(dv): Ghost<Seq<(Seq<usize>, nat)>>, seqs: &Vec<Vec<usize>>) -> (r: usize)
    requires
        gathered_view(d@, dv),
        forall|i: int, j: int| 0 <= i < seqs.len() && 0 <= j < seqs@[i]@.len() ==> #[trigger] seqs@[i]@[j] < d.len(),
    ensures
        r == min_cover(dv, element_edges(seqs@)),
{
    let ghost sv = element_edges(seqs@);
    let mut best: usize = 0;
    let mut i: usize = 0;
    while i < seqs.len()
        invariant
            i <= seqs.len(),
            sv == element_edges(seqs@),
            gathered_view(d@, dv),
            forall|ii: int, j: int| 0 <= ii < seqs.len() && 0 <= j < seqs@[ii]@.len() ==> #[trigger] seqs@[ii]@[j] < d.len(),
            best == min_cover(dv, sv.take(i as int)),
        decreases seqs.len() - i,
    {
        proof {
            assert(sv.take(i + 1).drop_last() =~= sv.take(i as int));
            assert(sv.take(i + 1).last() == seqs@[i as int]@);
        }
        let c = cover_count_of(d, Ghost(dv), &seqs[i]);
        if i == 0 || c < best {
            best = c;
        }
        i = i + 1;
    }
    proof {
        assert(sv.take(seqs.len() as int) =~= sv);
    }
    best
}

/// The ordering `s` extended by each unused index below `m`.
fn extensions_of(s: &Vec<usize>, m: usize) -> (r: Vec<Vec<usize>>)
    ensures
        element_edges(r@) == extensions(s@, m as nat),
{
    let mut out: Vec<Vec<usize>> = Vec::new();
    let mut k: usize = 0;
    while k < m
        invariant
            k <= m,
            element_edges(out@) == extensions(s@, k as nat),
        decreases m - k,
    {
        if !crate::system::ids_contain(s, k) {
            let mut t = s.clone();
            proof {
                assert(t@ == s@);
            }
            t.push(k);
            let ghost before = element_edges(out@);
            out.push(t);
            proof {
                assert(element_edges(out@) =~= before.push(s@.push(k)));
            }
        }
        k = k + 1;
    }
    out
}


/// The views of a list of arrangements.
pub open spec fn arrangements_view(v: Seq<Vec<Vec<usize>>>) -> Seq<Seq<Seq<usize>>> {
    v.map_values(|a: Vec<Vec<usize>>| element_edges(a@))
}

proof fn lemma_gather_nonempty(g: Seq<Seq<usize>>)
    requires
        g.len() > 0,
    ensures
        gather(g).len() > 0,
    decreases g.len(),
{
    let d = gather(g.drop_last());
    if g.len() > 1 {
        lemma_gather_nonempty(g.drop_last());
    } else {
        assert(g.drop_last().len() == 0);
        assert(d == Seq::<(Seq<usize>, nat)>::empty());
    }
    match find_gathered(d, g.last(), d.len() as int) {
        Some(k) => {
            lemma_find_range(d, g.last(), d.len() as int);
        },
        None => {},
    }
}

proof fn lemma_find_range(d: Seq<(Seq<usize>, nat)>, e: Seq<usize>, n: int)
    ensures
        find_gathered(d, e, n) matches Some(k) ==> 0 <= k < n,
    decreases n,
{
    if n > 0 {
        lemma_find_range(d, e, n - 1);
    }
}

/// The smallest key is unique.
proof fn lemma_min_key_unique(g: Seq<Seq<usize>>, k1: Seq<usize>, k2: Seq<usize>)
    requires
        is_min_key(g, k1),
        is_min_key(g, k2),
    ensures
        k1 == k2,
{
    let a1 = choose|a: Seq<Seq<usize>>| #[trigger] reached(g).contains(a) && arrangement_key(a) == k1;
    let a2 = choose|a: Seq<Seq<usize>>| #[trigger] reached(g).contains(a) && arrangement_key(a) == k2;
    assert(crate::ordering::lex_order(k1, k2) <= 0);
    assert(crate::ordering::lex_order(k2, k1) <= 0);
    crate::ordering::lemma_lex_order_basics(k1, k2);
}

/// The arrangement of the gathered edges for the ordering `s`.
fn arrangement_of(d: &Vec<(Vec<usize>, usize)>, Ghost(dv): Ghost<Seq<(Seq<usize>, nat)>>, s: &Vec<usize>) -> (r: Vec<Vec<usize>>)
    requires
        gathered_view(d@, dv),
        forall|j: int| 0 <= j < s.len() ==> #[trigger] s@[j] < d.len(),
    ensures
        element_edges(r@) == arrangement(dv, s@),
{
    let mut out: Vec<Vec<usize>> = Vec::new();
    let mut j: usize = 0;
    while j < s.len()
        invariant
            j <= s.len(),
            gathered_view(d@, dv),
            forall|q: int| 0 <= q < s.len() ==> #[trigger] s@[q] < d.len(),
            element_edges(out@) == arrangement(dv, s@.take(j as int)),
        decreases s.len() - j,
    {
        let (e, count) = (&d[s[j]].0, d[s[j]].1);
        let ghost base = element_edges(out@);
        let mut c: usize = 0;
        while c < count
            invariant
                c <= count,
                j < s.len(),
                e@ == dv[s@[j as int] as int].0,
                element_edges(out@) == base + Seq::new(c as nat, |q: int| e@),
            decreases count - c,
        {
            let copy = e.clone();
            proof {
                assert(copy@ == e@);
            }
            let ghost before = element_edges(out@);
            out.push(copy);
            proof {
                assert(element_edges(out@) =~= before.push(e@));
                assert(element_edges(out@) =~= base + Seq::new((c + 1) as nat, |q: int| e@));
            }
            c = c + 1;
        }
        proof {
            assert(s@.take(j + 1).drop_last() =~= s@.take(j as int));
            assert(s@.take(j + 1).last() == s@[j as int]);
            assert(count == dv[s@[j as int] as int].1);
        }
        j = j + 1;
    }
    proof {
        assert(s@.take(s.len() as int) =~= s@);
    }
    out
}

/// The concatenation of the edges.
fn flatten_edges(es: &Vec<Vec<usize>>) -> (r: Vec<usize>)
    ensures
        r@ == flat(element_edges(es@)),
{
    let ghost v = element_edges(es@);
    let mut out: Vec<usize> = Vec::new();
    let mut i: usize = 0;
    while i < es.len()
        invariant
            i <= es.len(),
            v == element_edges(es@),
            out@ == flat(v.take(i as int)),
        decreases es.len() - i,
    {
        let e = &es[i];
        let ghost base = out@;
        let mut k: usize = 0;
        while k < e.len()
            invariant
                k <= e.len(),
                out@ == base + e@.take(k as int),
            decreases e.len() - k,
        {
            out.push(e[k]);
            proof {
                assert(out@ =~= base + e@.take(k + 1));
            }
            k = k + 1;
        }
        proof {
            assert(e@.take(e.len() as int) =~= e@);
            assert(v.take(i + 1).drop_last() =~= v.take(i as int));
            assert(v.take(i + 1).last() == e@);
        }
        i = i + 1;
    }
    proof {
        assert(v.take(es.len() as int) =~= v);
    }
    out
}

/// Equality of two lists of edges.
fn same_edges(a: &Vec<Vec<usize>>, b: &Vec<Vec<usize>>) -> (r: bool)
    ensures
        r == (element_edges(a@) == element_edges(b@)),
{
    if a.len() != b.len() {
        assert(element_edges(a@).len() != element_edges(b@).len());
        return false;
    }
    let mut i: usize = 0;
    while i < a.len()
        invariant
            i <= a.len(),
            a.len() == b.len(),
            forall|k: int| 0 <= k < i ==> #[trigger] a@[k]@ == b@[k]@,
        decreases a.len() - i,
    {
        if !same_edge(&a[i], &b[i]) {
            assert(element_edges(a@)[i as int] != element_edges(b@)[i as int]);
            return false;
        }
        i = i + 1;
    }
    assert(element_edges(a@) =~= element_edges(b@));
    true
}

/// The candidate orderings of an arity group (`MiserTermsInTuples`, see
/// [`miser`]): a greedy search over orderings of the distinct edges (identical
/// edges stay together) that keeps, at each step, the prefixes covering the
/// fewest distinct elements; of the arrangements reached, those with the
/// smallest group-local renumbered form, each once.
fn miser_orderings(group: &Vec<Vec<usize>>) -> (r: Vec<Vec<Vec<usize>>>)
    requires
        group.len() > 0,
    ensures
        r.len() > 0,
        arrangements_view(r@).no_duplicates(),
        forall|a: Seq<Seq<usize>>| #[trigger] arrangements_view(r@).contains(a) <==> miser(element_edges(group@)).contains(a),
{
    let ghost g = element_edges(group@);
    let d = gather_edges(group);
    let ghost dv = gather(g);
    proof {
        lemma_gather_nonempty(g);
        assert(gathered_view(d@, dv));
    }
    let m = d.len();
    let mut seqs: Vec<Vec<usize>> = Vec::new();
    let mut i: usize = 0;
    while i < m
        invariant
            i <= m,
            m == dv.len(),
            element_edges(seqs@) == Seq::new(i as nat, |q: int| seq![q as usize]),
        decreases m - i,
    {
        let mut one: Vec<usize> = Vec::new();
        one.push(i);
        proof {
            assert(one@ =~= seq![i]);
        }
        let ghost before = element_edges(seqs@);
        seqs.push(one);
        proof {
            assert(element_edges(seqs@) =~= before.push(seq![i]));
            assert(element_edges(seqs@) =~= Seq::new((i + 1) as nat, |q: int| seq![q as usize]));
        }
        i = i + 1;
    }
    proof {
        assert forall|ii: int, j: int| 0 <= ii < seqs.len() && 0 <= j < seqs@[ii]@.len() implies #[trigger] seqs@[ii]@[j] < m by {
            assert(element_edges(seqs@)[ii] == seq![ii as usize]);
        }
    }
    let mut t: usize = 0;
    while t + 1 < m
        invariant
            m >= 1,
            m == dv.len(),
            gathered_view(d@, dv),
            t + 1 <= m,
            element_edges(seqs@) == greedy(dv, t as nat),
            forall|ii: int, j: int| 0 <= ii < seqs.len() && 0 <= j < seqs@[ii]@.len() ==> #[trigger] seqs@[ii]@[j] < m,
        decreases m - t,
    {
        let ghost prev = element_edges(seqs@);
        let minc = min_cover_of(&d, Ghost(dv), &seqs);
        let mut next: Vec<Vec<usize>> = Vec::new();
        let mut k: usize = 0;
        while k < seqs.len()
            invariant
                k <= seqs.len(),
                m == dv.len(),
                gathered_view(d@, dv),
                prev == element_edges(seqs@),
                minc == min_cover(dv, prev),
                forall|ii: int, j: int| 0 <= ii < seqs.len() && 0 <= j < seqs@[ii]@.len() ==> #[trigger] seqs@[ii]@[j] < m,
                element_edges(next@) == extend_all(prev.take(k as int).filter(covers_exactly(dv, minc as nat)), m as nat),
                forall|ii: int, j: int| 0 <= ii < next.len() && 0 <= j < next@[ii]@.len() ==> #[trigger] next@[ii]@[j] < m,
            decreases seqs.len() - k,
        {
            let ghost pk = prev.take(k + 1);
            let ghost pred = covers_exactly(dv, minc as nat);
            proof {
                assert(pk.drop_last() =~= prev.take(k as int));
                assert(pk.last() == seqs@[k as int]@);
                assert(pk.filter(pred) == if pred(pk.last()) {
                    pk.drop_last().filter(pred).push(pk.last())
                } else {
                    pk.drop_last().filter(pred)
                }) by {
                    reveal(Seq::filter);
                }
                assert(pk.drop_last().filter(pred).push(pk.last()).drop_last() =~= pk.drop_last().filter(pred));
            }
            if cover_count_of(&d, Ghost(dv), &seqs[k]) == minc {
                let ext = extensions_of(&seqs[k], m);
                proof {
                    lemma_extensions_bound(seqs@[k as int]@, m as nat, m as nat);
                    assert forall|ii: int, j: int| 0 <= ii < ext.len() && 0 <= j < ext@[ii]@.len() implies #[trigger] ext@[ii]@[j] < m by {
                        assert(element_edges(ext@)[ii] == ext@[ii]@);
                    }
                }
                let mut q: usize = 0;
                let ghost base = element_edges(next@);
                while q < ext.len()
                    invariant
                        q <= ext.len(),
                        element_edges(next@) == base + element_edges(ext@).take(q as int),
                        forall|ii: int, j: int| 0 <= ii < next.len() && 0 <= j < next@[ii]@.len() ==> #[trigger] next@[ii]@[j] < m,
                        forall|ii: int, j: int| 0 <= ii < ext.len() && 0 <= j < ext@[ii]@.len() ==> #[trigger] ext@[ii]@[j] < m,
                    decreases ext.len() - q,
                {
                    let e = ext[q].clone();
                    proof {
                        assert(e@ == ext@[q as int]@);
                    }
                    let ghost before = element_edges(next@);
                    next.push(e);
                    proof {
                        assert(element_edges(next@) =~= before.push(e@));
                        assert(element_edges(ext@).take(q + 1) =~= element_edges(ext@).take(q as int).push(e@));
                    }
                    q = q + 1;
                }
                proof {
                    assert(element_edges(ext@).take(ext.len() as int) =~= element_edges(ext@));
                }
            }
            k = k + 1;
        }
        proof {
            assert(prev.take(seqs.len() as int) =~= prev);
        }
        seqs = next;
        t = t + 1;
    }
    let ghost fin = element_edges(seqs@);
    let mut arrs: Vec<Vec<Vec<usize>>> = Vec::new();
    let mut keys: Vec<Vec<usize>> = Vec::new();
    let mut a: usize = 0;
    while a < seqs.len()
        invariant
            a <= seqs.len(),
            gathered_view(d@, dv),
            fin == element_edges(seqs@),
            forall|ii: int, j: int| 0 <= ii < seqs.len() && 0 <= j < seqs@[ii]@.len() ==> #[trigger] seqs@[ii]@[j] < m,
            m == dv.len(),
            arrs.len() == a,
            keys.len() == a,
            forall|q: int| 0 <= q < a ==> element_edges((#[trigger] arrs@[q])@) == arrangement(dv, fin[q]),
            forall|q: int| 0 <= q < a ==> (#[trigger] keys@[q])@ == arrangement_key(element_edges(arrs@[q]@)),
        decreases seqs.len() - a,
    {
        let arr = arrangement_of(&d, Ghost(dv), &seqs[a]);
        let f = flatten_edges(&arr);
        let key = renumber_flat(&f);
        arrs.push(arr);
        keys.push(key);
        a = a + 1;
    }
    let mut best: usize = 0;
    let mut q: usize = 1;
    proof {
        lemma_greedy_nonempty(dv, t as nat);
        assert(keys.len() == fin.len());
        crate::ordering::lemma_lex_order_basics(keys@[0]@, keys@[0]@);
    }
    while q < keys.len()
        invariant
            keys.len() == fin.len(),
            fin.len() > 0,
            best < keys.len(),
            1 <= q <= keys.len(),
            forall|p: int| 0 <= p < q ==> crate::ordering::lex_order(keys@[best as int]@, #[trigger] keys@[p]@) <= 0,
        decreases keys.len() - q,
    {
        proof {
            crate::ordering::lemma_lex_order_basics(keys@[q as int]@, keys@[best as int]@);
        }
        if crate::ordering::lex_compare(&keys[q], &keys[best]) < 0 {
            proof {
                assert forall|p: int| 0 <= p < q + 1 implies crate::ordering::lex_order(keys@[q as int]@, #[trigger] keys@[p]@) <= 0 by {
                    if p < q {
                        crate::ordering::lemma_lex_order_trans(keys@[q as int]@, keys@[best as int]@, keys@[p]@);
                    } else {
                        crate::ordering::lemma_lex_order_basics(keys@[q as int]@, keys@[q as int]@);
                    }
                }
            }
            best = q;
        }
        q = q + 1;
    }
    let ghost kmin = keys@[best as int]@;
    proof {
        assert(is_min_key(g, kmin)) by {
            assert(t + 1 == m);
            assert(greedy(dv, (dv.len() - 1) as nat).contains(fin[best as int]));
            assert(reached(g).contains(element_edges(arrs@[best as int]@)));
            assert forall|x: Seq<Seq<usize>>| #[trigger] reached(g).contains(x) implies crate::ordering::lex_order(kmin, arrangement_key(x)) <= 0 by {
                let s = choose|s: Seq<usize>| #[trigger] greedy(dv, (dv.len() - 1) as nat).contains(s) && x == arrangement(dv, s);
                let p = choose|p: int| 0 <= p < fin.len() && fin[p] == s;
                assert(keys@[p]@ == arrangement_key(x));
            }
        }
    }
    let mut out: Vec<Vec<Vec<usize>>> = Vec::new();
    let mut p: usize = 0;
    while p < arrs.len()
        invariant
            p <= arrs.len(),
            best < keys.len(),
            keys@[best as int]@ == kmin,
            arrs.len() == keys.len(),
            arrs.len() == fin.len(),
            is_min_key(g, kmin),
            forall|q: int| 0 <= q < arrs.len() ==> element_edges((#[trigger] arrs@[q])@) == arrangement(dv, fin[q]),
            forall|q: int| 0 <= q < arrs.len() ==> (#[trigger] keys@[q])@ == arrangement_key(element_edges(arrs@[q]@)),
            arrangements_view(out@).no_duplicates(),
            forall|x: Seq<Seq<usize>>| #[trigger] arrangements_view(out@).contains(x) <==> exists|q: int|
                0 <= q < p && element_edges((#[trigger] arrs@[q])@) == x && keys@[q]@ == kmin,
        decreases arrs.len() - p,
    {
        proof {
            crate::ordering::lemma_lex_order_basics(keys@[p as int]@, kmin);
        }
        if same_edge(&keys[p], &keys[best]) {
            let mut dup = false;
            let mut u: usize = 0;
            while u < out.len()
                invariant
                    u <= out.len(),
                    p < arrs.len(),
                    !dup ==> forall|v: int| 0 <= v < u ==> element_edges((#[trigger] out@[v])@) != element_edges(arrs@[p as int]@),
                    dup ==> arrangements_view(out@).contains(element_edges(arrs@[p as int]@)),
                decreases out.len() - u,
            {
                if same_edges(&out[u], &arrs[p]) {
                    proof {
                        assert(arrangements_view(out@)[u as int] == element_edges(arrs@[p as int]@));
                    }
                    dup = true;
                }
                u = u + 1;
            }
            if !dup {
                let c = copy_edges_usize(&arrs[p]);
                let ghost before = arrangements_view(out@);
                out.push(c);
                proof {
                    assert(arrangements_view(out@) =~= before.push(element_edges(arrs@[p as int]@)));
                    assert(!before.contains(element_edges(arrs@[p as int]@))) by {
                        if before.contains(element_edges(arrs@[p as int]@)) {
                            let v = choose|v: int| 0 <= v < before.len() && before[v] == element_edges(arrs@[p as int]@);
                            assert(element_edges(out@[v]@) == before[v]);
                        }
                    }
                    assert forall|x: Seq<Seq<usize>>| #[trigger] arrangements_view(out@).contains(x) <==> exists|q: int|
                        0 <= q < p + 1 && element_edges((#[trigger] arrs@[q])@) == x && keys@[q]@ == kmin by {
                        if arrangements_view(out@).contains(x) && x != element_edges(arrs@[p as int]@) {
                            let v = choose|v: int| 0 <= v < arrangements_view(out@).len() && arrangements_view(out@)[v] == x;
                            assert(before[v] == x);
                            assert(before.contains(x));
                        }
                        if x == element_edges(arrs@[p as int]@) {
                            assert(arrangements_view(out@)[before.len() as int] == x);
                        }
                        if exists|q: int| 0 <= q < p + 1 && element_edges((#[trigger] arrs@[q])@) == x && keys@[q]@ == kmin {
                            let q = choose|q: int| 0 <= q < p + 1 && element_edges((#[trigger] arrs@[q])@) == x && keys@[q]@ == kmin;
                            if q < p {
                                assert(before.contains(x));
                                let v = choose|v: int| 0 <= v < before.len() && before[v] == x;
                                assert(arrangements_view(out@)[v] == x);
                            }
                        }
                    }
                }
            } else {
                proof {
                    assert forall|x: Seq<Seq<usize>>| #[trigger] arrangements_view(out@).contains(x) <==> exists|q: int|
                        0 <= q < p + 1 && element_edges((#[trigger] arrs@[q])@) == x && keys@[q]@ == kmin by {
                        if exists|q: int| 0 <= q < p + 1 && element_edges((#[trigger] arrs@[q])@) == x && keys@[q]@ == kmin {
                            let q = choose|q: int| 0 <= q < p + 1 && element_edges((#[trigger] arrs@[q])@) == x && keys@[q]@ == kmin;
                            if q == p {
                                assert(arrangements_view(out@).contains(element_edges(arrs@[p as int]@)));
                            }
                        }
                    }
                }
            }
        } else {
            proof {
                assert forall|x: Seq<Seq<usize>>| #[trigger] arrangements_view(out@).contains(x) <==> exists|q: int|
                    0 <= q < p + 1 && element_edges((#[trigger] arrs@[q])@) == x && keys@[q]@ == kmin by {
                    if exists|q: int| 0 <= q < p + 1 && element_edges((#[trigger] arrs@[q])@) == x && keys@[q]@ == kmin {
                        let q = choose|q: int| 0 <= q < p + 1 && element_edges((#[trigger] arrs@[q])@) == x && keys@[q]@ == kmin;
                        assert(q != p);
                    }
                }
            }
        }
        p = p + 1;
    }
    proof {
        assert(arrangements_view(out@).contains(element_edges(arrs@[best as int]@)));
        assert(out.len() > 0);
        assert forall|x: Seq<Seq<usize>>| #[trigger] arrangements_view(out@).contains(x) <==> miser(g).contains(x) by {
            if arrangements_view(out@).contains(x) {
                let q = choose|q: int| 0 <= q < arrs.len() && element_edges((#[trigger] arrs@[q])@) == x && keys@[q]@ == kmin;
                assert(greedy(dv, (dv.len() - 1) as nat).contains(fin[q]));
                assert(reached(g).contains(x));
            }
            if miser(g).contains(x) {
                let s = choose|s: Seq<usize>| #[trigger] greedy(dv, (dv.len() - 1) as nat).contains(s) && x == arrangement(dv, s);
                let q = choose|q: int| 0 <= q < fin.len() && fin[q] == s;
                lemma_min_key_unique(g, kmin, arrangement_key(x));
                assert(element_edges(arrs@[q]@) == x);
            }
        }
    }
    out
}

/// A copy of the edges.
fn copy_edges_usize(v: &Vec<Vec<usize>>) -> (r: Vec<Vec<usize>>)
    ensures
        element_edges(r@) == element_edges(v@),
{
    let mut out: Vec<Vec<usize>> = Vec::new();
    let mut i: usize = 0;
    while i < v.len()
        invariant
            i <= v.len(),
            element_edges(out@) == element_edges(v@).take(i as int),
        decreases v.len() - i,
    {
        let e = v[i].clone();
        proof {
            assert(e@ == v@[i as int]@);
        }
        let ghost before = element_edges(out@);
        out.push(e);
        proof {
            assert(element_edges(out@) =~= before.push(e@));
            assert(element_edges(v@).take(i + 1) =~= element_edges(v@).take(i as int).push(e@));
        }
        i = i + 1;
    }
    assert(element_edges(v@).take(v.len() as int) =~= element_edges(v@));
    out
}

/// Extensions only add indices below `m`.
proof fn lemma_extensions_bound(s: Seq<usize>, k: nat, m: nat)
    requires
        k <= m,
        forall|q: int| 0 <= q < s.len() ==> s[q] < m,
    ensures
        forall|i: int, j: int| 0 <= i < extensions(s, k).len() && 0 <= j < extensions(s, k)[i].len() ==> #[trigger] extensions(s, k)[i][j] < m,
    decreases k,
{
    if k > 0 {
        lemma_extensions_bound(s, (k - 1) as nat, m);
        let prev = extensions(s, (k - 1) as nat);
        assert forall|i: int, j: int| 0 <= i < extensions(s, k).len() && 0 <= j < extensions(s, k)[i].len() implies #[trigger] extensions(s, k)[i][j] < m by {
            if i < prev.len() {
                assert(extensions(s, k)[i] == prev[i]);
            } else {
                assert(extensions(s, k)[i] == s.push((k - 1) as usize));
            }
        }
    }
}

/// Every greedy round keeps at least one ordering.
proof fn lemma_greedy_nonempty(d: Seq<(Seq<usize>, nat)>, t: nat)
    requires
        d.len() <= usize::MAX,
        t + 1 <= d.len(),
    ensures
        greedy(d, t).len() > 0,
        forall|i: int| 0 <= i < greedy(d, t).len() ==> (#[trigger] greedy(d, t)[i]).len() == t + 1 && greedy(d, t)[i].no_duplicates()
            && forall|j: int| 0 <= j < greedy(d, t)[i].len() ==> greedy(d, t)[i][j] < d.len(),
    decreases t,
{
    if t == 0 {
        assert(greedy(d, 0)[0] == seq![0usize]);
        assert forall|i: int| 0 <= i < greedy(d, t).len() implies (#[trigger] greedy(d, t)[i]).len() == t + 1 && greedy(d, t)[i].no_duplicates()
            && forall|j: int| 0 <= j < greedy(d, t)[i].len() ==> greedy(d, t)[i][j] < d.len() by {
            assert(greedy(d, 0)[i] == seq![i as usize]);
        }
    } else {
        lemma_greedy_nonempty(d, (t - 1) as nat);
        let prev = greedy(d, (t - 1) as nat);
        let mc = min_cover(d, prev);
        let kept = prev.filter(covers_exactly(d, mc));
        lemma_min_cover_attained(d, prev);
        let w = choose|i: int| 0 <= i < prev.len() && cover_count(d, prev[i]) == mc;
        lemma_filter_keeps(prev, covers_exactly(d, mc), w);
        assert(kept.len() > 0);
        assert forall|i: int| 0 <= i < kept.len() implies (#[trigger] kept[i]).len() == t && kept[i].no_duplicates()
            && forall|j: int| 0 <= j < kept[i].len() ==> kept[i][j] < d.len() by {
            lemma_filter_from(prev, covers_exactly(d, mc), i);
        }
        lemma_extend_all(kept, d.len(), t);
    }
}

proof fn lemma_min_cover_attained(d: Seq<(Seq<usize>, nat)>, seqs: Seq<Seq<usize>>)
    requires
        seqs.len() > 0,
    ensures
        exists|i: int| 0 <= i < seqs.len() && cover_count(d, seqs[i]) == min_cover(d, seqs),
    decreases seqs.len(),
{
    if seqs.len() > 1 {
        lemma_min_cover_attained(d, seqs.drop_last());
        let i = choose|i: int| 0 <= i < seqs.drop_last().len() && cover_count(d, seqs.drop_last()[i]) == min_cover(d, seqs.drop_last());
        assert(seqs[i] == seqs.drop_last()[i]);
        assert(cover_count(d, seqs[seqs.len() - 1]) == cover_count(d, seqs.last()));
    } else {
        assert(cover_count(d, seqs[0]) == min_cover(d, seqs));
    }
}

proof fn lemma_filter_keeps(s: Seq<Seq<usize>>, p: spec_fn(Seq<usize>) -> bool, w: int)
    requires
        0 <= w < s.len(),
        p(s[w]),
    ensures
        s.filter(p).len() > 0,
{
    s.lemma_filter_contains(p, w);
}

proof fn lemma_filter_from(s: Seq<Seq<usize>>, p: spec_fn(Seq<usize>) -> bool, i: int)
    requires
        0 <= i < s.filter(p).len(),
    ensures
        s.contains(s.filter(p)[i]),
{
    assert(s.filter(p).contains(s.filter(p)[i]));
    s.lemma_filter_contains_rev(p, s.filter(p)[i]);
}

/// Extending orderings of `t` distinct indices below `m < ...` keeps at least
/// one ordering, of `t + 1` distinct indices below `m`.
proof fn lemma_extend_all(kept: Seq<Seq<usize>>, m: nat, t: nat)
    requires
        m <= usize::MAX,
        t < m,
        kept.len() > 0,
        forall|i: int| 0 <= i < kept.len() ==> (#[trigger] kept[i]).len() == t && kept[i].no_duplicates() && forall|j: int|
            0 <= j < kept[i].len() ==> kept[i][j] < m,
    ensures
        extend_all(kept, m).len() > 0,
        forall|i: int| 0 <= i < extend_all(kept, m).len() ==> (#[trigger] extend_all(kept, m)[i]).len() == t + 1 && extend_all(
            kept,
            m,
        )[i].no_duplicates() && forall|j: int| 0 <= j < extend_all(kept, m)[i].len() ==> extend_all(kept, m)[i][j] < m,
    decreases kept.len(),
{
    let s = kept.last();
    assert(s == kept[kept.len() - 1]);
    lemma_extensions_props(s, m, m);
    lemma_missing_index(s, m);
    if kept.len() > 1 {
        assert forall|i: int| 0 <= i < kept.drop_last().len() implies (#[trigger] kept.drop_last()[i]).len() == t && kept.drop_last()[i].no_duplicates()
            && forall|j: int| 0 <= j < kept.drop_last()[i].len() ==> kept.drop_last()[i][j] < m by {
            assert(kept.drop_last()[i] == kept[i]);
        }
        lemma_extend_all(kept.drop_last(), m, t);
    }
    let a = extend_all(kept.drop_last(), m);
    let b = extensions(s, m);
    assert(extend_all(kept, m) == a + b);
    if kept.len() == 1 {
        assert(a.len() == 0);
    }
    assert forall|i: int| 0 <= i < extend_all(kept, m).len() implies (#[trigger] extend_all(kept, m)[i]).len() == t + 1 && extend_all(
        kept,
        m,
    )[i].no_duplicates() && forall|j: int| 0 <= j < extend_all(kept, m)[i].len() ==> extend_all(kept, m)[i][j] < m by {
        if i < a.len() {
            assert(extend_all(kept, m)[i] == a[i]);
        } else {
            assert(extend_all(kept, m)[i] == b[i - a.len()]);
        }
    }
}

/// The extensions of `s` below `k`: each is `s` plus one unused index below
/// `k`, and every unused index below `k` gives one.
proof fn lemma_extensions_props(s: Seq<usize>, k: nat, m: nat)
    requires
        k <= m,
        s.no_duplicates(),
        forall|j: int| 0 <= j < s.len() ==> s[j] < m,
    ensures
        forall|i: int| 0 <= i < extensions(s, k).len() ==> (#[trigger] extensions(s, k)[i]).len() == s.len() + 1
            && extensions(s, k)[i].no_duplicates() && forall|j: int| 0 <= j < extensions(s, k)[i].len() ==> extensions(s, k)[i][j] < m,
        (exists|x: usize| x < k && !s.contains(x)) ==> extensions(s, k).len() > 0,
    decreases k,
{
    if k > 0 {
        lemma_extensions_props(s, (k - 1) as nat, m);
        let prev = extensions(s, (k - 1) as nat);
        if !s.contains((k - 1) as usize) {
            let n = s.push((k - 1) as usize);
            assert(n.no_duplicates()) by {
                assert forall|a: int, b: int| 0 <= a < n.len() && 0 <= b < n.len() && a != b implies n[a] != n[b] by {
                    if a == s.len() {
                        assert(n[b] == s[b]);
                    } else if b == s.len() {
                        assert(n[a] == s[a]);
                    }
                }
            }
            assert forall|i: int| 0 <= i < extensions(s, k).len() implies (#[trigger] extensions(s, k)[i]).len() == s.len() + 1
                && extensions(s, k)[i].no_duplicates() && forall|j: int| 0 <= j < extensions(s, k)[i].len() ==> extensions(s, k)[i][j] < m by {
                if i < prev.len() {
                    assert(extensions(s, k)[i] == prev[i]);
                }
            }
        } else {
            if exists|x: usize| x < k && !s.contains(x) {
                let x = choose|x: usize| x < k && !s.contains(x);
                assert(x != k - 1);
            }
        }
    }
}

/// An ordering of fewer than `m` distinct indices below `m` misses one.
proof fn lemma_missing_index(s: Seq<usize>, m: nat)
    requires
        m <= usize::MAX,
        s.no_duplicates(),
        forall|j: int| 0 <= j < s.len() ==> s[j] < m,
        s.len() < m,
    ensures
        exists|x: usize| x < m && !s.contains(x),
    decreases m,
{
    let top = (m - 1) as usize;
    if !s.contains(top) {
        assert(top < m && !s.contains(top));
    } else {
        let k = choose|k: int| 0 <= k < s.len() && s[k] == top;
        let r = s.remove(k);
        assert(r.no_duplicates()) by {
            assert forall|a: int, b: int| 0 <= a < r.len() && 0 <= b < r.len() && a != b implies r[a] != r[b] by {
                let aa = if a < k { a } else { a + 1 };
                let bb = if b < k { b } else { b + 1 };
                assert(r[a] == s[aa]);
                assert(r[b] == s[bb]);
            }
        }
        assert forall|j: int| 0 <= j < r.len() implies r[j] < m - 1 by {
            let jj = if j < k { j } else { j + 1 };
            assert(r[j] == s[jj]);
            assert(jj != k);
        }
        lemma_missing_index(r, (m - 1) as nat);
        let x = choose|x: usize| x < m - 1 && !r.contains(x);
        assert(!s.contains(x)) by {
            if s.contains(x) {
                let q = choose|q: int| 0 <= q < s.len() && s[q] == x;
                assert(q != k);
                let qq = if q < k { q } else { q - 1 };
                assert(r[qq] == x);
            }
        }
    }
}


/// `e` inserted into `sorted` after every edge at least as long.
pub open spec fn insert_by_len(sorted: Seq<Seq<usize>>, e: Seq<usize>) -> Seq<Seq<usize>>
    decreases sorted.len(),
{
    if sorted.len() == 0 {
        seq![e]
    } else if sorted[0].len() < e.len() {
        seq![e] + sorted
    } else {
        seq![sorted[0]] + insert_by_len(sorted.drop_first(), e)
    }
}

/// The edges sorted by descending length, keeping the given order among
/// edges of equal length.
pub open spec fn sort_by_len(es: Seq<Seq<usize>>) -> Seq<Seq<usize>>
    decreases es.len(),
{
    if es.len() == 0 {
        Seq::empty()
    } else {
        insert_by_len(sort_by_len(es.drop_last()), es.last())
    }
}

/// Maximal runs of consecutive edges of equal length.
pub open spec fn runs(es: Seq<Seq<usize>>) -> Seq<Seq<Seq<usize>>>
    decreases es.len(),
{
    if es.len() == 0 {
        Seq::empty()
    } else {
        let r = runs(es.drop_last());
        let e = es.last();
        if r.len() > 0 && r.last()[0].len() == e.len() {
            r.update(r.len() - 1, r.last().push(e))
        } else {
            r.push(seq![e])
        }
    }
}

/// The arity groups of a side: its edges by descending length, in runs of
/// equal length.
pub open spec fn arity_groups(side: Seq<Seq<usize>>) -> Seq<Seq<Seq<usize>>> {
    runs(sort_by_len(side))
}

/// A nonempty group of edges of one length.
pub open spec fn uniform(g: Seq<Seq<usize>>) -> bool {
    &&& g.len() > 0
    &&& forall|j: int| 0 <= j < g.len() ==> #[trigger] g[j].len() == g[0].len()
}

/// The edges of a list of edge lists, concatenated.
pub open spec fn joined(c: Seq<Seq<Seq<usize>>>) -> Seq<Seq<usize>>
    decreases c.len(),
{
    if c.len() == 0 {
        Seq::empty()
    } else {
        joined(c.drop_last()) + c.last()
    }
}

/// The lengths of the edges.
pub open spec fn lens(es: Seq<Seq<usize>>) -> Seq<usize> {
    es.map_values(|e: Seq<usize>| e.len() as usize)
}

/// `rest` picks a candidate arrangement for each group from `from` on.
pub open spec fn completes(groups: Seq<Seq<Seq<usize>>>, from: int, rest: Seq<Seq<Seq<usize>>>) -> bool {
    &&& rest.len() == groups.len() - from
    &&& forall|k: int| 0 <= k < rest.len() ==> miser(groups[from + k]).contains(#[trigger] rest[k])
}

/// The renumbered form of a prefix followed by the arrangements `rest`.
pub open spec fn key_with(prefix: Seq<usize>, rest: Seq<Seq<Seq<usize>>>) -> Seq<usize> {
    renumbered(prefix + flat(joined(rest)))
}

/// `k` is the smallest renumbered form over the combinations of candidate
/// arrangements of the groups from `from` on, after `prefix`.
pub open spec fn is_best(groups: Seq<Seq<Seq<usize>>>, from: int, prefix: Seq<usize>, k: Seq<usize>) -> bool {
    &&& exists|rest: Seq<Seq<Seq<usize>>>| #[trigger] completes(groups, from, rest) && key_with(prefix, rest) == k
    &&& forall|rest: Seq<Seq<Seq<usize>>>| #[trigger] completes(groups, from, rest) ==> crate::ordering::lex_order(
        k,
        key_with(prefix, rest),
    ) <= 0
}

/// The smallest renumbered form over all combinations of candidate
/// arrangements of the groups.
pub open spec fn best_key(groups: Seq<Seq<Seq<usize>>>) -> Seq<usize> {
    choose|k: Seq<usize>| is_best(groups, 0, Seq::empty(), k)
}

/// The canonical form of a rule: the smallest renumbered form over the
/// combinations of candidate orderings of its arity groups (left groups,
/// then right groups), cut into edges of the sides' sorted edge lengths.
pub open spec fn canonical(lhs: Seq<Seq<usize>>, rhs: Seq<Seq<usize>>) -> (Seq<Seq<usize>>, Seq<Seq<usize>>) {
    split_rule(
        best_key(arity_groups(lhs) + arity_groups(rhs)),
        lens(sort_by_len(lhs)),
        lens(sort_by_len(rhs)),
    )
}

/// The smallest form is unique.
proof fn lemma_best_unique(groups: Seq<Seq<Seq<usize>>>, from: int, prefix: Seq<usize>, k1: Seq<usize>, k2: Seq<usize>)
    requires
        is_best(groups, from, prefix, k1),
        is_best(groups, from, prefix, k2),
    ensures
        k1 == k2,
{
    let r1 = choose|rest: Seq<Seq<Seq<usize>>>| #[trigger] completes(groups, from, rest) && key_with(prefix, rest) == k1;
    let r2 = choose|rest: Seq<Seq<Seq<usize>>>| #[trigger] completes(groups, from, rest) && key_with(prefix, rest) == k2;
    assert(crate::ordering::lex_order(k1, k2) <= 0);
    assert(crate::ordering::lex_order(k2, k1) <= 0);
    crate::ordering::lemma_lex_order_basics(k1, k2);
}

/// Sum of the counts of gathered edges.
pub open spec fn sum_counts(d: Seq<(Seq<usize>, nat)>) -> nat
    decreases d.len(),
{
    if d.len() == 0 {
        0
    } else {
        sum_counts(d.drop_last()) + d.last().1
    }
}

/// Sum of the counts of the gathered edges picked by `s`.
pub open spec fn sum_picked(d: Seq<(Seq<usize>, nat)>, s: Seq<usize>) -> nat
    decreases s.len(),
{
    if s.len() == 0 {
        0
    } else {
        sum_picked(d, s.drop_last()) + d[s.last() as int].1
    }
}

proof fn lemma_sum_counts_update(d: Seq<(Seq<usize>, nat)>, k: int, e: Seq<usize>)
    requires
        0 <= k < d.len(),
    ensures
        sum_counts(d.update(k, (e, d[k].1 + 1))) == sum_counts(d) + 1,
    decreases d.len(),
{
    if k < d.len() - 1 {
        assert(d.update(k, (e, d[k].1 + 1)).drop_last() =~= d.drop_last().update(k, (e, d[k].1 + 1)));
        lemma_sum_counts_update(d.drop_last(), k, e);
    } else {
        assert(d.update(k, (e, d[k].1 + 1)).drop_last() =~= d.drop_last());
    }
}

/// Gathering keeps every edge and its occurrences.
proof fn lemma_gather_facts(g: Seq<Seq<usize>>)
    ensures
        sum_counts(gather(g)) == g.len(),
        forall|i: int| 0 <= i < gather(g).len() ==> g.contains(#[trigger] gather(g)[i].0),
    decreases g.len(),
{
    if g.len() > 0 {
        let d = gather(g.drop_last());
        lemma_gather_facts(g.drop_last());
        lemma_find_range(d, g.last(), d.len() as int);
        match find_gathered(d, g.last(), d.len() as int) {
            Some(k) => {
                lemma_sum_counts_update(d, k, g.last());
            },
            None => {
                assert(d.push((g.last(), 1nat)).drop_last() =~= d);
            },
        }
        assert forall|i: int| 0 <= i < gather(g).len() implies g.contains(#[trigger] gather(g)[i].0) by {
            if gather(g)[i].0 != g.last() {
                assert(g.drop_last().contains(d[i].0));
                let j = choose|j: int| 0 <= j < g.drop_last().len() && g.drop_last()[j] == d[i].0;
                assert(g[j] == d[i].0);
            } else {
                assert(g[g.len() - 1] == g.last());
            }
        }
    }
}

proof fn lemma_sum_picked_remove(d: Seq<(Seq<usize>, nat)>, s: Seq<usize>, k: int)
    requires
        0 <= k < s.len(),
    ensures
        sum_picked(d, s) == sum_picked(d, s.remove(k)) + d[s[k] as int].1,
    decreases s.len(),
{
    if k < s.len() - 1 {
        assert(s.remove(k).drop_last() =~= s.drop_last().remove(k));
        assert(s.remove(k).last() == s.last());
        lemma_sum_picked_remove(d, s.drop_last(), k);
    } else {
        assert(s.remove(k) =~= s.drop_last());
    }
}

proof fn lemma_sum_picked_prefix(d: Seq<(Seq<usize>, nat)>, s: Seq<usize>, n: int)
    requires
        0 <= n <= d.len(),
        forall|j: int| 0 <= j < s.len() ==> s[j] < n,
    ensures
        sum_picked(d, s) == sum_picked(d.take(n), s),
    decreases s.len(),
{
    if s.len() > 0 {
        lemma_sum_picked_prefix(d, s.drop_last(), n);
    }
}

/// Picking every gathered edge once sums all counts.
proof fn lemma_perm_sum(d: Seq<(Seq<usize>, nat)>, s: Seq<usize>)
    requires
        d.len() <= usize::MAX,
        s.len() == d.len(),
        s.no_duplicates(),
        forall|j: int| 0 <= j < s.len() ==> s[j] < d.len(),
    ensures
        sum_picked(d, s) == sum_counts(d),
    decreases d.len(),
{
    if d.len() > 0 {
        let top = (d.len() - 1) as usize;
        lemma_missing_or_all(s, d.len());
        let k = choose|k: int| 0 <= k < s.len() && s[k] == top;
        let r = s.remove(k);
        assert(r.no_duplicates()) by {
            assert forall|a: int, b: int| 0 <= a < r.len() && 0 <= b < r.len() && a != b implies r[a] != r[b] by {
                let aa = if a < k { a } else { a + 1 };
                let bb = if b < k { b } else { b + 1 };
                assert(r[a] == s[aa]);
                assert(r[b] == s[bb]);
            }
        }
        assert forall|j: int| 0 <= j < r.len() implies r[j] < d.len() - 1 by {
            let jj = if j < k { j } else { j + 1 };
            assert(r[j] == s[jj]);
            assert(jj != k);
        }
        lemma_sum_picked_remove(d, s, k);
        lemma_sum_picked_prefix(d, r, d.len() - 1);
        assert(d.take(d.len() - 1) =~= d.drop_last());
        lemma_perm_sum(d.drop_last(), r);
    }
}

/// `n` distinct indices below `n` include every index below `n`.
proof fn lemma_missing_or_all(s: Seq<usize>, n: nat)
    requires
        n <= usize::MAX,
        n > 0,
        s.len() == n,
        s.no_duplicates(),
        forall|j: int| 0 <= j < s.len() ==> s[j] < n,
    ensures
        exists|k: int| 0 <= k < s.len() && s[k] == (n - 1) as usize,
{
    let top = (n - 1) as usize;
    if !s.contains(top) {
        lemma_bounded_distinct_len(s, (n - 1) as nat);
    }
}

/// Distinct indices below `n` are at most `n` many.
proof fn lemma_bounded_distinct_len(s: Seq<usize>, n: nat)
    requires
        n <= usize::MAX,
        s.no_duplicates(),
        forall|j: int| 0 <= j < s.len() ==> s[j] < n,
    ensures
        s.len() <= n,
    decreases n,
{
    if s.len() > n {
        if n == 0 {
            assert(s[0] < 0);
        } else {
            let top = (n - 1) as usize;
            if s.contains(top) {
                let k = choose|k: int| 0 <= k < s.len() && s[k] == top;
                let r = s.remove(k);
                assert(r.no_duplicates()) by {
                    assert forall|a: int, b: int| 0 <= a < r.len() && 0 <= b < r.len() && a != b implies r[a] != r[b] by {
                        let aa = if a < k { a } else { a + 1 };
                        let bb = if b < k { b } else { b + 1 };
                        assert(r[a] == s[aa]);
                        assert(r[b] == s[bb]);
                    }
                }
                assert forall|j: int| 0 <= j < r.len() implies r[j] < n - 1 by {
                    let jj = if j < k { j } else { j + 1 };
                    assert(r[j] == s[jj]);
                    assert(jj != k);
                }
                lemma_bounded_distinct_len(r, (n - 1) as nat);
            } else {
                assert forall|j: int| 0 <= j < s.len() implies s[j] < n - 1 by {
                    assert(s[j] != top);
                }
                lemma_bounded_distinct_len(s, (n - 1) as nat);
            }
        }
    }
}


proof fn lemma_flat_add(x: Seq<Seq<usize>>, y: Seq<Seq<usize>>)
    ensures
        flat(x + y) == flat(x) + flat(y),
    decreases y.len(),
{
    if y.len() == 0 {
        assert(x + y =~= x);
        assert(flat(x) + flat(y) =~= flat(x));
    } else {
        assert((x + y).drop_last() =~= x + y.drop_last());
        assert((x + y).last() == y.last());
        lemma_flat_add(x, y.drop_last());
        assert(flat(x + y) =~= flat(x) + flat(y));
    }
}

proof fn lemma_joined_cons(a: Seq<Seq<usize>>, rest: Seq<Seq<Seq<usize>>>)
    ensures
        joined(seq![a] + rest) == a + joined(rest),
    decreases rest.len(),
{
    if rest.len() == 0 {
        assert(seq![a] + rest =~= seq![a]);
        assert(seq![a].drop_last() =~= Seq::<Seq<Seq<usize>>>::empty());
        assert(joined(seq![a].drop_last()) =~= Seq::<Seq<usize>>::empty());
        assert(joined(seq![a]) =~= a);
        assert(a + joined(rest) =~= a);
    } else {
        assert((seq![a] + rest).drop_last() =~= seq![a] + rest.drop_last());
        assert((seq![a] + rest).last() == rest.last());
        lemma_joined_cons(a, rest.drop_last());
        assert(joined(seq![a] + rest) =~= a + joined(rest));
    }
}

proof fn lemma_joined_add(x: Seq<Seq<Seq<usize>>>, y: Seq<Seq<Seq<usize>>>)
    ensures
        joined(x + y) == joined(x) + joined(y),
    decreases y.len(),
{
    if y.len() == 0 {
        assert(x + y =~= x);
        assert(joined(x) + joined(y) =~= joined(x));
    } else {
        assert((x + y).drop_last() =~= x + y.drop_last());
        assert((x + y).last() == y.last());
        lemma_joined_add(x, y.drop_last());
        assert(joined(x + y) =~= joined(x) + joined(y));
    }
}

/// A prefix followed by one more arrangement.
proof fn lemma_key_cons(prefix: Seq<usize>, a: Seq<Seq<usize>>, rest: Seq<Seq<Seq<usize>>>)
    ensures
        key_with(prefix, seq![a] + rest) == key_with(prefix + flat(a), rest),
{
    lemma_joined_cons(a, rest);
    lemma_flat_add(a, joined(rest));
    assert(prefix + flat(joined(seq![a] + rest)) =~= (prefix + flat(a)) + flat(joined(rest)));
}

/// Runs are nonempty, of one length each, and together are the edges.
proof fn lemma_runs(es: Seq<Seq<usize>>)
    ensures
        joined(runs(es)) == es,
        forall|k: int| 0 <= k < runs(es).len() ==> uniform(#[trigger] runs(es)[k]),
    decreases es.len(),
{
    if es.len() > 0 {
        let r = runs(es.drop_last());
        let e = es.last();
        lemma_runs(es.drop_last());
        if r.len() > 0 && r.last()[0].len() == e.len() {
            let n = r.update(r.len() - 1, r.last().push(e));
            assert(n.drop_last() =~= r.drop_last());
            assert(joined(r) == joined(r.drop_last()) + r.last());
            assert(joined(n) =~= joined(r).push(e));
            assert(es =~= es.drop_last().push(e));
            assert forall|k: int| 0 <= k < n.len() implies uniform(#[trigger] n[k]) by {
                if k == n.len() - 1 {
                    assert(n[k] == r.last().push(e));
                    assert(r.last() == r[r.len() - 1]);
                    assert(uniform(r[r.len() - 1]));
                    assert forall|j: int| 0 <= j < n[k].len() implies #[trigger] n[k][j].len() == n[k][0].len() by {
                        if j < r.last().len() {
                            assert(n[k][j] == r.last()[j]);
                        }
                    }
                } else {
                    assert(n[k] == r[k]);
                }
            }
        } else {
            let n = r.push(seq![e]);
            assert(n.drop_last() =~= r);
            assert(joined(n) =~= joined(r) + seq![e]);
            assert(es =~= es.drop_last().push(e));
            assert forall|k: int| 0 <= k < n.len() implies uniform(#[trigger] n[k]) by {
                if k < r.len() {
                    assert(n[k] == r[k]);
                }
            }
        }
    }
}

/// The arrangement for `s` has the picked counts' total of edges, each an
/// edge of `d`.
proof fn lemma_arrangement_shape(d: Seq<(Seq<usize>, nat)>, s: Seq<usize>, len: nat)
    requires
        forall|j: int| 0 <= j < s.len() ==> s[j] < d.len(),
        forall|i: int| 0 <= i < d.len() ==> (#[trigger] d[i]).0.len() == len,
    ensures
        arrangement(d, s).len() == sum_picked(d, s),
        forall|k: int| 0 <= k < arrangement(d, s).len() ==> (#[trigger] arrangement(d, s)[k]).len() == len,
    decreases s.len(),
{
    if s.len() > 0 {
        lemma_arrangement_shape(d, s.drop_last(), len);
        let a = arrangement(d, s.drop_last());
        let e = d[s.last() as int];
        assert(s.last() == s[s.len() - 1]);
        assert forall|k: int| 0 <= k < arrangement(d, s).len() implies (#[trigger] arrangement(d, s)[k]).len() == len by {
            if k < a.len() {
                assert(arrangement(d, s)[k] == a[k]);
            } else {
                assert(arrangement(d, s)[k] == e.0);
            }
        }
    }
}

/// Every candidate arrangement of a group of edges of one length has the
/// group's edge lengths.
proof fn lemma_miser_lens(g: Seq<Seq<usize>>, a: Seq<Seq<usize>>)
    requires
        uniform(g),
        g.len() <= usize::MAX,
        miser(g).contains(a),
    ensures
        a.len() == g.len(),
        forall|k: int| 0 <= k < a.len() ==> (#[trigger] a[k]).len() == g[k].len(),
{
    let d = gather(g);
    lemma_gather_facts(g);
    lemma_gather_nonempty(g);
    lemma_gather_len(g);
    let s = choose|s: Seq<usize>| #[trigger] greedy(d, (d.len() - 1) as nat).contains(s) && a == arrangement(d, s);
    lemma_greedy_nonempty(d, (d.len() - 1) as nat);
    let i = choose|i: int| 0 <= i < greedy(d, (d.len() - 1) as nat).len() && #[trigger] greedy(d, (d.len() - 1) as nat)[i] == s;
    assert forall|q: int| 0 <= q < d.len() implies (#[trigger] d[q]).0.len() == g[0].len() by {
        assert(g.contains(d[q].0));
        let j = choose|j: int| 0 <= j < g.len() && g[j] == d[q].0;
    }
    lemma_arrangement_shape(d, s, g[0].len());
    lemma_perm_sum(d, s);
}

proof fn lemma_gather_len(g: Seq<Seq<usize>>)
    ensures
        gather(g).len() <= g.len(),
    decreases g.len(),
{
    if g.len() > 0 {
        let d = gather(g.drop_last());
        lemma_gather_len(g.drop_last());
        lemma_find_range(d, g.last(), d.len() as int);
    }
}

/// Combinations of candidate arrangements have the groups' edge lengths.
proof fn lemma_combo_lens(groups: Seq<Seq<Seq<usize>>>, from: int, rest: Seq<Seq<Seq<usize>>>)
    requires
        0 <= from <= groups.len(),
        completes(groups, from, rest),
        forall|k: int| 0 <= k < groups.len() ==> uniform(#[trigger] groups[k]) && groups[k].len() <= usize::MAX,
    ensures
        joined(rest).len() == joined(groups.skip(from)).len(),
        forall|i: int| 0 <= i < joined(rest).len() ==> (#[trigger] joined(rest)[i]).len() == joined(groups.skip(from))[i].len(),
    decreases rest.len(),
{
    if rest.len() > 0 {
        let n = groups.len() - 1;
        let shorter = groups.take(n);
        assert(completes(shorter, from, rest.drop_last())) by {
            assert forall|k: int| 0 <= k < rest.drop_last().len() implies miser(shorter[from + k]).contains(#[trigger] rest.drop_last()[k]) by {
                assert(rest.drop_last()[k] == rest[k]);
                assert(shorter[from + k] == groups[from + k]);
            }
        }
        assert forall|k: int| 0 <= k < shorter.len() implies uniform(#[trigger] shorter[k]) && shorter[k].len() <= usize::MAX by {
            assert(shorter[k] == groups[k]);
        }
        lemma_combo_lens(shorter, from, rest.drop_last());
        assert(rest.last() == rest[rest.len() - 1]);
        assert(miser(groups[n]).contains(rest.last()));
        lemma_miser_lens(groups[n], rest.last());
        assert(groups.skip(from).drop_last() =~= shorter.skip(from));
        assert(groups.skip(from).last() == groups[n]);
        let jr = joined(rest);
        let jg = joined(groups.skip(from));
        let jr0 = joined(rest.drop_last());
        let jg0 = joined(shorter.skip(from));
        assert(jr == jr0 + rest.last());
        assert(jg == jg0 + groups[n]);
        assert forall|i: int| 0 <= i < jr.len() implies (#[trigger] jr[i]).len() == jg[i].len() by {
            if i < jr0.len() {
                assert(jr[i] == jr0[i]);
                assert(jg[i] == jg0[i]);
            } else {
                assert(jr[i] == rest.last()[i - jr0.len()]);
                assert(jg[i] == groups[n][i - jg0.len()]);
            }
        }
    } else {
        assert(groups.skip(from) =~= Seq::<Seq<Seq<usize>>>::empty());
    }
}

proof fn lemma_flat_len(es: Seq<Seq<usize>>)
    requires
        forall|i: int| 0 <= i < es.len() ==> (#[trigger] es[i]).len() <= usize::MAX,
    ensures
        flat(es).len() == total(lens(es)),
    decreases es.len(),
{
    if es.len() > 0 {
        lemma_flat_len(es.drop_last());
        assert(lens(es).drop_last() =~= lens(es.drop_last()));
        assert(lens(es).last() == es.last().len()) by {
            assert(es.last() == es[es.len() - 1]);
        }
    }
}


proof fn lemma_insert_by_len(sorted: Seq<Seq<usize>>, e: Seq<usize>, p: int)
    requires
        0 <= p <= sorted.len(),
        forall|k: int| 0 <= k < p ==> #[trigger] sorted[k].len() >= e.len(),
        p == sorted.len() || sorted[p].len() < e.len(),
    ensures
        insert_by_len(sorted, e) == sorted.take(p) + seq![e] + sorted.skip(p),
    decreases sorted.len(),
{
    if sorted.len() == 0 {
        assert(sorted.take(p) + seq![e] + sorted.skip(p) =~= seq![e]);
    } else if p == 0 {
        assert(sorted.take(p) + seq![e] + sorted.skip(p) =~= seq![e] + sorted);
    } else {
        let rest = sorted.drop_first();
        assert forall|k: int| 0 <= k < p - 1 implies #[trigger] rest[k].len() >= e.len() by {
            assert(rest[k] == sorted[k + 1]);
        }
        lemma_insert_by_len(rest, e, p - 1);
        assert(sorted.take(p) + seq![e] + sorted.skip(p) =~= seq![sorted[0]] + (rest.take(p - 1) + seq![e] + rest.skip(p - 1)));
    }
}

/// The edges sorted by descending length (stable).
fn sort_edges_by_len(es: &Vec<Vec<usize>>) -> (r: Vec<Vec<usize>>)
    ensures
        element_edges(r@) == sort_by_len(element_edges(es@)),
{
    let ghost v = element_edges(es@);
    let mut sorted: Vec<Vec<usize>> = Vec::new();
    let mut n: usize = 0;
    while n < es.len()
        invariant
            n <= es.len(),
            v == element_edges(es@),
            element_edges(sorted@) == sort_by_len(v.take(n as int)),
        decreases es.len() - n,
    {
        let e = es[n].clone();
        proof {
            assert(e@ == v[n as int]);
        }
        let mut p: usize = 0;
        while p < sorted.len() && sorted[p].len() >= e.len()
            invariant
                p <= sorted.len(),
                forall|k: int| 0 <= k < p ==> #[trigger] sorted@[k]@.len() >= e@.len(),
            decreases sorted.len() - p,
        {
            p = p + 1;
        }
        let ghost before = element_edges(sorted@);
        proof {
            assert forall|k: int| 0 <= k < p implies #[trigger] before[k].len() >= e@.len() by {
                assert(before[k] == sorted@[k]@);
            }
            if p < sorted.len() {
                assert(before[p as int] == sorted@[p as int]@);
            }
            lemma_insert_by_len(before, e@, p as int);
            assert(v.take(n + 1).drop_last() =~= v.take(n as int));
            assert(v.take(n + 1).last() == e@);
        }
        let ghost ev = e@;
        sorted.insert(p, e);
        proof {
            assert(element_edges(sorted@) =~= before.take(p as int) + seq![ev] + before.skip(p as int));
        }
        n = n + 1;
    }
    proof {
        assert(v.take(es.len() as int) =~= v);
    }
    sorted
}

/// Maximal runs of consecutive edges of equal length.
fn group_runs(es: &Vec<Vec<usize>>) -> (r: Vec<Vec<Vec<usize>>>)
    ensures
        arrangements_view(r@) == runs(element_edges(es@)),
{
    let ghost v = element_edges(es@);
    let mut groups: Vec<Vec<Vec<usize>>> = Vec::new();
    let mut n: usize = 0;
    while n < es.len()
        invariant
            n <= es.len(),
            v == element_edges(es@),
            arrangements_view(groups@) == runs(v.take(n as int)),
            forall|k: int| 0 <= k < groups.len() ==> (#[trigger] groups@[k]).len() > 0,
        decreases es.len() - n,
    {
        let e = es[n].clone();
        proof {
            assert(e@ == v[n as int]);
            assert(v.take(n + 1).drop_last() =~= v.take(n as int));
            assert(v.take(n + 1).last() == e@);
        }
        let ghost before = arrangements_view(groups@);
        let last = groups.len();
        if last > 0 && groups[last - 1][0].len() == e.len() {
            proof {
                assert(before.last() == element_edges(groups@[last - 1]@));
                assert(before.last()[0] == groups@[last - 1]@[0]@);
            }
            let mut g = groups.remove(last - 1);
            let ghost gv = element_edges(g@);
            let ghost ev = e@;
            g.push(e);
            groups.push(g);
            proof {
                assert(element_edges(g@) =~= gv.push(ev));
                assert(arrangements_view(groups@) =~= before.update(before.len() - 1, before.last().push(ev)));
            }
        } else {
            proof {
                if last > 0 {
                    assert(before.last()[0] == groups@[last - 1]@[0]@);
                }
            }
            let mut g: Vec<Vec<usize>> = Vec::new();
            let ghost ev = e@;
            g.push(e);
            groups.push(g);
            proof {
                assert(element_edges(g@) =~= seq![ev]);
                assert(arrangements_view(groups@) =~= before.push(seq![ev]));
            }
        }
        n = n + 1;
    }
    proof {
        assert(v.take(es.len() as int) =~= v);
    }
    groups
}

/// The lengths of the edges.
fn edge_lengths(es: &Vec<Vec<usize>>) -> (r: Vec<usize>)
    ensures
        r@ == lens(element_edges(es@)),
{
    let mut out: Vec<usize> = Vec::new();
    let mut i: usize = 0;
    while i < es.len()
        invariant
            i <= es.len(),
            out@ == lens(element_edges(es@)).take(i as int),
        decreases es.len() - i,
    {
        out.push(es[i].len());
        proof {
            assert(out@ =~= lens(element_edges(es@)).take(i + 1));
        }
        i = i + 1;
    }
    assert(lens(element_edges(es@)).take(es.len() as int) =~= lens(element_edges(es@)));
    out
}

/// The candidate lists are the candidate sets of the groups.
pub open spec fn candidates_for(groups: Seq<Seq<Seq<usize>>>, cands: Seq<Vec<Vec<Vec<usize>>>>) -> bool {
    &&& cands.len() == groups.len()
    &&& forall|k: int| 0 <= k < cands.len() ==> (#[trigger] cands[k]).len() > 0
    &&& forall|k: int, a: Seq<Seq<usize>>|
        0 <= k < cands.len() ==> (#[trigger] arrangements_view(cands[k]@).contains(a) <==> miser(groups[k]).contains(a))
}

/// The smallest renumbered form over the combinations of candidate
/// arrangements of the groups from `gi` on, after `prefix`.
fn best_from(
    Ghost(groups): Ghost<Seq<Seq<Seq<usize>>>>,
    cands: &Vec<Vec<Vec<Vec<usize>>>>,
    gi: usize,
    prefix: &Vec<usize>,
) -> (r: Vec<usize>)
    requires
        candidates_for(groups, cands@),
        gi <= cands.len(),
    ensures
        is_best(groups, gi as int, prefix@, r@),
    decreases cands.len() - gi,
{
    if gi == cands.len() {
        let r = renumber_flat(prefix);
        proof {
            let empty = Seq::<Seq<Seq<usize>>>::empty();
            assert(completes(groups, gi as int, empty));
            assert(prefix@ + flat(joined(empty)) =~= prefix@);
            assert forall|rest: Seq<Seq<Seq<usize>>>| #[trigger] completes(groups, gi as int, rest) implies crate::ordering::lex_order(
                r@,
                key_with(prefix@, rest),
            ) <= 0 by {
                assert(rest =~= empty);
                crate::ordering::lemma_lex_order_basics(r@, r@);
            }
        }
        return r;
    }
    let options = &cands[gi];
    let mut best: Vec<usize> = Vec::new();
    let mut i: usize = 0;
    while i < options.len()
        invariant
            candidates_for(groups, cands@),
            gi < cands.len(),
            options == cands@[gi as int],
            i <= options.len(),
            i > 0 ==> exists|rest: Seq<Seq<Seq<usize>>>| #[trigger] completes(groups, gi as int, rest) && key_with(prefix@, rest) == best@,
            i > 0 ==> forall|rest: Seq<Seq<Seq<usize>>>|
                #[trigger] completes(groups, gi as int, rest) && arrangements_view(options@).take(i as int).contains(rest[0])
                    ==> crate::ordering::lex_order(best@, key_with(prefix@, rest)) <= 0,
        decreases options.len() - i,
    {
        let a = &options[i];
        let ghost av = element_edges(a@);
        let f = flatten_edges(a);
        let mut p2 = prefix.clone();
        proof {
            assert(p2@ == prefix@);
            assert(prefix@ + f@.take(0) =~= prefix@);
        }
        let mut q: usize = 0;
        while q < f.len()
            invariant
                q <= f.len(),
                p2@ == prefix@ + f@.take(q as int),
            decreases f.len() - q,
        {
            p2.push(f[q]);
            proof {
                assert(p2@ =~= prefix@ + f@.take(q + 1));
            }
            q = q + 1;
        }
        proof {
            assert(f@.take(f.len() as int) =~= f@);
        }
        let k = best_from(Ghost(groups), cands, gi + 1, &p2);
        proof {
            assert(arrangements_view(options@)[i as int] == av);
            assert(arrangements_view(options@).contains(av));
            assert(miser(groups[gi as int]).contains(av));
            assert(arrangements_view(options@).take(i + 1) =~= arrangements_view(options@).take(i as int).push(av));
            crate::ordering::lemma_lex_order_basics(k@, best@);
        }
        let better = i == 0 || crate::ordering::lex_compare(&k, &best) < 0;
        proof {
            let sub = choose|rest: Seq<Seq<Seq<usize>>>| #[trigger] completes(groups, gi + 1, rest) && key_with(p2@, rest) == k@;
            let full = seq![av] + sub;
            lemma_key_cons(prefix@, av, sub);
            assert(completes(groups, gi as int, full)) by {
                assert forall|j: int| 0 <= j < full.len() implies miser(groups[gi + j]).contains(#[trigger] full[j]) by {
                    if j > 0 {
                        assert(full[j] == sub[j - 1]);
                    }
                }
            }
            assert(key_with(prefix@, full) == k@);
            assert forall|rest: Seq<Seq<Seq<usize>>>|
                #[trigger] completes(groups, gi as int, rest) && rest[0] == av implies crate::ordering::lex_order(k@, key_with(prefix@, rest)) <= 0 by {
                let tail = rest.drop_first();
                assert(rest =~= seq![av] + tail);
                lemma_key_cons(prefix@, av, tail);
                assert(completes(groups, gi + 1, tail)) by {
                    assert forall|j: int| 0 <= j < tail.len() implies miser(groups[gi + 1 + j]).contains(#[trigger] tail[j]) by {
                        assert(tail[j] == rest[j + 1]);
                    }
                }
            }
        }
        if better {
            proof {
                assert forall|rest: Seq<Seq<Seq<usize>>>|
                    #[trigger] completes(groups, gi as int, rest) && arrangements_view(options@).take(i + 1).contains(rest[0]) implies crate::ordering::lex_order(
                    k@,
                    key_with(prefix@, rest),
                ) <= 0 by {
                    if rest[0] != av {
                        assert(arrangements_view(options@).take(i as int).contains(rest[0]));
                        crate::ordering::lemma_lex_order_trans(k@, best@, key_with(prefix@, rest));
                    }
                }
            }
            best = k;
        } else {
            proof {
                assert forall|rest: Seq<Seq<Seq<usize>>>|
                    #[trigger] completes(groups, gi as int, rest) && arrangements_view(options@).take(i + 1).contains(rest[0]) implies crate::ordering::lex_order(
                    best@,
                    key_with(prefix@, rest),
                ) <= 0 by {
                    if rest[0] == av {
                        crate::ordering::lemma_lex_order_trans(best@, k@, key_with(prefix@, rest));
                    } else {
                        assert(arrangements_view(options@).take(i as int).contains(rest[0]));
                    }
                }
            }
        }
        i = i + 1;
    }
    proof {
        assert(arrangements_view(options@).take(options.len() as int) =~= arrangements_view(options@));
        assert forall|rest: Seq<Seq<Seq<usize>>>| #[trigger] completes(groups, gi as int, rest) implies crate::ordering::lex_order(
            best@,
            key_with(prefix@, rest),
        ) <= 0 by {
            assert(miser(groups[gi as int]).contains(rest[0]));
            assert(arrangements_view(options@).contains(rest[0]));
        }
    }
    best
}


/// The canonical form (see [`canonical`]): each side's edges sorted by
/// descending length and split into arity groups; each group's candidate
/// orderings come from [`miser_orderings`]; the combination of group
/// orderings whose whole-rule renumbered sequence is lexicographically
/// smallest wins, and the rule is renumbered by first occurrence.
fn canonical_form(lhs: &Vec<Vec<usize>>, rhs: &Vec<Vec<usize>>) -> (r: (Vec<Vec<usize>>, Vec<Vec<usize>>))
    requires
        lhs.len() + rhs.len() <= usize::MAX,
    ensures
        (element_edges(r.0@), element_edges(r.1@)) == canonical(element_edges(lhs@), element_edges(rhs@)),
{
    let sl = sort_edges_by_len(lhs);
    let sr = sort_edges_by_len(rhs);
    let gl = group_runs(&sl);
    let gr = group_runs(&sr);
    let ghost gv = arrangements_view(gl@) + arrangements_view(gr@);
    let mut k: usize = 0;
    proof {
        lemma_runs(element_edges(sl@));
        lemma_runs(element_edges(sr@));
        lemma_sort_len(element_edges(lhs@));
        lemma_sort_len(element_edges(rhs@));
        lemma_runs_len(element_edges(sl@));
        lemma_runs_len(element_edges(sr@));
    }
    let total_groups = gl.len() + gr.len();
    let mut cands: Vec<Vec<Vec<Vec<usize>>>> = Vec::new();
    while k < total_groups
        invariant
            k <= total_groups,
            total_groups == gl.len() + gr.len(),
            gv == arrangements_view(gl@) + arrangements_view(gr@),
            arrangements_view(gl@) == runs(element_edges(sl@)),
            arrangements_view(gr@) == runs(element_edges(sr@)),
            forall|q: int| 0 <= q < runs(element_edges(sl@)).len() ==> uniform(#[trigger] runs(element_edges(sl@))[q]),
            forall|q: int| 0 <= q < runs(element_edges(sr@)).len() ==> uniform(#[trigger] runs(element_edges(sr@))[q]),
            cands.len() == k,
            forall|q: int| 0 <= q < k ==> (#[trigger] cands@[q]).len() > 0,
            forall|q: int, a: Seq<Seq<usize>>|
                0 <= q < k ==> (#[trigger] arrangements_view(cands@[q]@).contains(a) <==> miser(gv[q]).contains(a)),
        decreases total_groups - k,
    {
        let group = if k < gl.len() {
            &gl[k]
        } else {
            &gr[k - gl.len()]
        };
        proof {
            assert(element_edges(group@) == gv[k as int]);
            if k < gl.len() {
                assert(uniform(runs(element_edges(sl@))[k as int]));
            } else {
                assert(uniform(runs(element_edges(sr@))[k - gl.len()]));
            }
        }
        let c = miser_orderings(group);
        cands.push(c);
        k = k + 1;
    }
    let empty: Vec<usize> = Vec::new();
    let key = best_from(Ghost(gv), &cands, 0, &empty);
    let la = edge_lengths(&sl);
    let ra = edge_lengths(&sr);
    proof {
        let sv = element_edges(sl@);
        let rv = element_edges(sr@);
        assert(gv == arity_groups(element_edges(lhs@)) + arity_groups(element_edges(rhs@)));
        assert(is_best(gv, 0, Seq::empty(), key@));
        let rest = choose|rest: Seq<Seq<Seq<usize>>>| #[trigger] completes(gv, 0, rest) && key_with(Seq::empty(), rest) == key@;
        assert forall|q: int| 0 <= q < gv.len() implies uniform(#[trigger] gv[q]) && gv[q].len() <= usize::MAX by {
            if q < gl.len() {
                assert(uniform(runs(sv)[q]));
                assert(gv[q] == element_edges(gl@[q]@));
                assert(gl@[q].len() == gl@[q]@.len());
            } else {
                assert(uniform(runs(rv)[q - gl.len()]));
                assert(gv[q] == element_edges(gr@[q - gl.len()]@));
                assert(gr@[q - gl.len()].len() == gr@[q - gl.len()]@.len());
            }
        }
        lemma_combo_lens(gv, 0, rest);
        assert(gv.skip(0) =~= gv);
        lemma_joined_add(runs(sv), runs(rv));
        let jr = joined(rest);
        assert(joined(gv) == sv + rv);
        assert(forall|i: int| 0 <= i < jr.len() ==> (#[trigger] jr[i]).len() <= usize::MAX) by {
            assert forall|i: int| 0 <= i < jr.len() implies (#[trigger] jr[i]).len() <= usize::MAX by {
                assert(jr[i].len() == (sv + rv)[i].len());
                if i < sv.len() {
                    assert((sv + rv)[i] == sl@[i]@);
                    assert(sl@[i].len() == sl@[i]@.len());
                } else {
                    assert((sv + rv)[i] == sr@[i - sv.len()]@);
                    assert(sr@[i - sv.len()].len() == sr@[i - sv.len()]@.len());
                }
            }
        }
        lemma_flat_len(jr);
        assert(lens(jr) =~= lens(sv) + lens(rv));
        assert(Seq::<usize>::empty() + flat(jr) =~= flat(jr));
        assert(key@.len() == flat(jr).len());
        assert(la@ + ra@ == lens(sv) + lens(rv));
        assert(gl.len() + gr.len() == gv.len());
        lemma_best_unique(gv, 0, Seq::empty(), best_key(gv), key@);
    }
    split_edges(&key, &la, &ra)
}

/// A candidate is canonical iff it equals its canonical form.
fn is_canonical(lhs: &Vec<Vec<usize>>, rhs: &Vec<Vec<usize>>) -> (r: bool)
    requires
        lhs.len() + rhs.len() <= usize::MAX,
    ensures
        r == (canonical(element_edges(lhs@), element_edges(rhs@)) == (element_edges(lhs@), element_edges(rhs@))),
{
    let (cl, cr) = canonical_form(lhs, rhs);
    same_edges(&cl, lhs) && same_edges(&cr, rhs)
}


proof fn lemma_insert_len(sorted: Seq<Seq<usize>>, e: Seq<usize>)
    ensures
        insert_by_len(sorted, e).len() == sorted.len() + 1,
    decreases sorted.len(),
{
    if sorted.len() > 0 && sorted[0].len() >= e.len() {
        lemma_insert_len(sorted.drop_first(), e);
    }
}

proof fn lemma_sort_len(es: Seq<Seq<usize>>)
    ensures
        sort_by_len(es).len() == es.len(),
    decreases es.len(),
{
    if es.len() > 0 {
        lemma_sort_len(es.drop_last());
        lemma_insert_len(sort_by_len(es.drop_last()), es.last());
    }
}

proof fn lemma_runs_len(es: Seq<Seq<usize>>)
    ensures
        runs(es).len() <= es.len(),
    decreases es.len(),
{
    if es.len() > 0 {
        lemma_runs_len(es.drop_last());
    }
}


/// `s` is a restricted-growth sequence with values up to `max`: each value
/// is at least 1 and at most one more than every earlier value (and `max`).
pub open spec fn restricted_growth(s: Seq<usize>, max: usize) -> bool {
    forall|i: int| 0 <= i < s.len() ==> 1 <= #[trigger] s[i] <= max && s[i] <= prefix_max(s, i) + 1
}

/// The slot sequences of the rules to enumerate: restricted-growth
/// sequences of `n` slots with at most `max` elements, whose rule passes the
/// connectivity constraint and equals its canonical form.
pub open spec fn wanted(s: Seq<usize>, n: nat, max: usize, lhs: Seq<usize>, rhs: Seq<usize>, c: Connectivity) -> bool {
    let sides = split_rule(s, lhs, rhs);
    &&& s.len() == n
    &&& restricted_growth(s, max)
    &&& passes(sides.0, sides.1, c)
    &&& canonical(sides.0, sides.1) == sides
}

proof fn lemma_prefix_max_take(s: Seq<usize>, t: Seq<usize>, k: int)
    requires
        0 <= k <= s.len(),
        k <= t.len(),
        s.take(k) == t.take(k),
    ensures
        prefix_max(s, k) == prefix_max(t, k),
    decreases k,
{
    if k > 0 {
        assert(s.take(k - 1) =~= s.take(k).take(k - 1));
        assert(t.take(k - 1) =~= t.take(k).take(k - 1));
        assert(s[k - 1] == s.take(k)[k - 1]);
        assert(t[k - 1] == t.take(k)[k - 1]);
        lemma_prefix_max_take(s, t, k - 1);
    }
}

/// Restricted-growth generation: each slot from `index` on takes an existing
/// element or the next unused one (up to `max_elements`); every complete
/// sequence whose rule passes the connectivity constraint and is canonical
/// is appended to `found`, each exactly once.
#[verifier::spinoff_prover]
fn generate(
    index: usize,
    seen: usize,
    max_elements: usize,
    slots: &mut Vec<usize>,
    lhs: &Vec<usize>,
    rhs: &Vec<usize>,
    connectivity: Connectivity,
    found: &mut Vec<Vec<usize>>,
)
    requires
        index <= old(slots).len(),
        old(slots).len() == total(lhs@ + rhs@),
        lhs.len() + rhs.len() <= usize::MAX,
        seen == prefix_max(old(slots)@, index as int),
        seen <= max_elements,
        restricted_growth(old(slots)@.take(index as int), max_elements),
    ensures
        final(slots).len() == old(slots).len(),
        final(slots)@.take(index as int) == old(slots)@.take(index as int),
        final(found)@.len() >= old(found)@.len(),
        final(found)@.take(old(found)@.len() as int) == old(found)@,
        element_edges(final(found)@.skip(old(found)@.len() as int)).no_duplicates(),
        forall|s: Seq<usize>| #[trigger] element_edges(final(found)@.skip(old(found)@.len() as int)).contains(s) <==> (s.take(
            index as int,
        ) == old(slots)@.take(index as int) && wanted(s, old(slots)@.len(), max_elements, lhs@, rhs@, connectivity)),
    decreases old(slots).len() - index, 0nat,
{
    let ghost n = slots@.len();
    let ghost f0 = found@;
    let ghost pre = slots@.take(index as int);
    if index == slots.len() {
        let (l, r) = split_edges(slots, lhs, rhs);
        proof {
            assert(slots@.take(index as int) =~= slots@);
            lemma_slices_len(slots@, lhs@ + rhs@);
            assert(l.len() == element_edges(l@).len());
            assert(r.len() == element_edges(r@).len());
            assert(l.len() + r.len() <= usize::MAX);
        }
        if passes_connectivity(&l, &r, connectivity) && is_canonical(&l, &r) {
            let c = slots.clone();
            proof {
                assert(c@ == slots@);
            }
            found.push(c);
            proof {
                assert(found@.take(f0.len() as int) =~= f0);
                assert(element_edges(found@.skip(f0.len() as int)) =~= seq![slots@]);
                assert forall|s: Seq<usize>| #[trigger] element_edges(found@.skip(f0.len() as int)).contains(s) <==> (s.take(
                    index as int,
                ) == pre && wanted(s, n, max_elements, lhs@, rhs@, connectivity)) by {
                    if s.take(index as int) == pre && s.len() == n {
                        assert(s =~= s.take(index as int));
                    }
                }
            }
        } else {
            proof {
                assert(found@.take(f0.len() as int) =~= f0);
                assert(element_edges(found@.skip(f0.len() as int)) =~= Seq::<Seq<usize>>::empty());
                assert forall|s: Seq<usize>| #[trigger] element_edges(found@.skip(f0.len() as int)).contains(s) <==> (s.take(
                    index as int,
                ) == pre && wanted(s, n, max_elements, lhs@, rhs@, connectivity)) by {
                    if s.take(index as int) == pre && s.len() == n {
                        assert(s =~= s.take(index as int));
                        assert(s == slots@);
                    }
                }
            }
        }
        return;
    }
    let limit = if seen < max_elements {
        seen + 1
    } else {
        max_elements
    };
    let mut done: usize = 0;
    proof {
        assert(found@.take(f0.len() as int) =~= f0);
        assert(element_edges(found@.skip(f0.len() as int)) =~= Seq::<Seq<usize>>::empty());
    }
    while done < limit
        invariant
            index < slots.len(),
            n == slots@.len(),
            slots@.len() == total(lhs@ + rhs@),
            lhs.len() + rhs.len() <= usize::MAX,
            slots@.take(index as int) == pre,
            pre == old(slots)@.take(index as int),
            n == old(slots)@.len(),
            seen == prefix_max(old(slots)@, index as int),
            seen <= max_elements,
            restricted_growth(pre, max_elements),
            limit == if seen < max_elements { seen + 1 } else { max_elements as int },
            done <= limit,
            limit <= max_elements,
            found@.len() >= f0.len(),
            found@.take(f0.len() as int) == f0,
            f0 == old(found)@,
            element_edges(found@.skip(f0.len() as int)).no_duplicates(),
            forall|s: Seq<usize>| #[trigger] element_edges(found@.skip(f0.len() as int)).contains(s) <==> (s.take(index as int) == pre
                && index < s.len() && s[index as int] <= done && wanted(s, n, max_elements, lhs@, rhs@, connectivity)),
        decreases limit - done,
    {
        let value = done + 1;
        slots.set(index, value);
        let next_seen = if value > seen {
            value
        } else {
            seen
        };
        let ghost f1 = found@;
        let ghost sl1 = slots@;
        proof {
            assert(sl1.take(index as int) =~= pre);
            lemma_prefix_max_take(sl1, old(slots)@, index as int);
            assert(sl1.take(index + 1) =~= pre.push(value));
            assert(next_seen == prefix_max(sl1, index + 1));
            assert(restricted_growth(sl1.take(index + 1), max_elements)) by {
                assert forall|i: int| 0 <= i < index + 1 implies 1 <= #[trigger] sl1.take(index + 1)[i] <= max_elements
                    && sl1.take(index + 1)[i] <= prefix_max(sl1.take(index + 1), i) + 1 by {
                    assert(sl1.take(index + 1).take(i) =~= sl1.take(i));
                    lemma_prefix_max_take(sl1.take(index + 1), sl1, i);
                    if i < index {
                        assert(sl1.take(index + 1)[i] == pre[i]);
                        assert(pre.take(i) =~= sl1.take(i));
                        lemma_prefix_max_take(pre, sl1, i);
                    } else {
                        lemma_prefix_max_take(sl1, old(slots)@, i);
                    }
                }
            }
        }
        generate(index + 1, next_seen, max_elements, slots, lhs, rhs, connectivity, found);
        proof {
            let added = element_edges(found@.skip(f1.len() as int));
            let before = element_edges(f1.skip(f0.len() as int));
            let now = element_edges(found@.skip(f0.len() as int));
            assert(found@.take(f1.len() as int) == f1);
            assert(found@.take(f0.len() as int) =~= f0) by {
                assert(found@.take(f0.len() as int) =~= found@.take(f1.len() as int).take(f0.len() as int));
            }
            assert(now =~= before + added) by {
                assert(found@.skip(f0.len() as int) =~= f1.skip(f0.len() as int) + found@.skip(f1.len() as int));
            }
            assert(slots@.take(index as int) =~= pre) by {
                assert(slots@.take(index as int) =~= slots@.take(index + 1).take(index as int));
                assert(sl1.take(index + 1).take(index as int) =~= pre);
            }
            assert forall|s: Seq<usize>| #[trigger] added.contains(s) implies s.take(index as int) == pre && s[index as int] == value by {
                assert(s.take(index + 1) == sl1.take(index + 1));
                assert(s.take(index as int) =~= s.take(index + 1).take(index as int));
                assert(s[index as int] == s.take(index + 1)[index as int]);
            }
            assert(now.no_duplicates()) by {
                assert forall|a: int, b: int| 0 <= a < now.len() && 0 <= b < now.len() && a != b implies now[a] != now[b] by {
                    if a < before.len() && b >= before.len() {
                        assert(before.contains(now[a]));
                        assert(added.contains(now[b]));
                    } else if a >= before.len() && b < before.len() {
                        assert(before.contains(now[b]));
                        assert(added.contains(now[a]));
                    } else if a < before.len() {
                        assert(now[a] == before[a] && now[b] == before[b]);
                    } else {
                        assert(now[a] == added[a - before.len()] && now[b] == added[b - before.len()]);
                    }
                }
            }
            assert forall|s: Seq<usize>| #[trigger] now.contains(s) <==> (s.take(index as int) == pre && index < s.len() && s[index as int]
                <= value && wanted(s, n, max_elements, lhs@, rhs@, connectivity)) by {
                if now.contains(s) {
                    let q = choose|q: int| 0 <= q < now.len() && now[q] == s;
                    if q < before.len() {
                        assert(before.contains(s));
                    } else {
                        assert(added[q - before.len()] == s);
                        assert(added.contains(s));
                    }
                }
                if s.take(index as int) == pre && index < s.len() && s[index as int] <= value && wanted(s, n, max_elements, lhs@, rhs@, connectivity) {
                    if s[index as int] <= done {
                        assert(before.contains(s));
                        let q = choose|q: int| 0 <= q < before.len() && before[q] == s;
                        assert(now[q] == s);
                    } else {
                        assert(s.take(index + 1) =~= pre.push(value));
                        assert(added.contains(s));
                        let q = choose|q: int| 0 <= q < added.len() && added[q] == s;
                        assert(now[before.len() + q] == s);
                    }
                }
            }
        }
        done = value;
    }
    proof {
        assert forall|s: Seq<usize>| #[trigger] element_edges(found@.skip(f0.len() as int)).contains(s) <==> (s.take(index as int) == pre
            && wanted(s, n, max_elements, lhs@, rhs@, connectivity)) by {
            if s.take(index as int) == pre && wanted(s, n, max_elements, lhs@, rhs@, connectivity) {
                assert(s[index as int] <= prefix_max(s, index as int) + 1);
                lemma_prefix_max_take(s, old(slots)@, index as int);
                assert(s[index as int] <= max_elements);
            }
        }
    }
}

proof fn lemma_slices_len(slots: Seq<usize>, arities: Seq<usize>)
    ensures
        slices(slots, arities).len() == arities.len(),
    decreases arities.len(),
{
    if arities.len() > 0 {
        lemma_slices_len(slots, arities.drop_last());
    }
}


/// The novelty pattern as numbers (1 for a new element).
pub open spec fn novelty_numbers(s: Seq<usize>) -> Seq<usize> {
    novelty(s).map_values(|b: bool| if b { 1usize } else { 0usize })
}

/// The enumeration order: by novelty pattern (`false` before `true`), then
/// lexicographically.
pub open spec fn rule_order(a: Seq<usize>, b: Seq<usize>) -> int {
    let c = crate::ordering::lex_order(novelty_numbers(a), novelty_numbers(b));
    if c != 0 {
        c
    } else {
        crate::ordering::lex_order(a, b)
    }
}

proof fn lemma_rule_order_basics(a: Seq<usize>, b: Seq<usize>)
    ensures
        rule_order(a, b) == -rule_order(b, a),
        rule_order(a, b) == 0 <==> a == b,
{
    crate::ordering::lemma_lex_order_basics(novelty_numbers(a), novelty_numbers(b));
    crate::ordering::lemma_lex_order_basics(a, b);
}

proof fn lemma_rule_order_trans(a: Seq<usize>, b: Seq<usize>, c: Seq<usize>)
    requires
        rule_order(a, b) < 0,
        rule_order(b, c) < 0,
    ensures
        rule_order(a, c) < 0,
{
    let (na, nb, nc) = (novelty_numbers(a), novelty_numbers(b), novelty_numbers(c));
    crate::ordering::lemma_lex_order_basics(na, nb);
    crate::ordering::lemma_lex_order_basics(nb, nc);
    crate::ordering::lemma_lex_order_basics(na, nc);
    crate::ordering::lemma_lex_order_basics(a, b);
    crate::ordering::lemma_lex_order_basics(b, c);
    crate::ordering::lemma_lex_order_basics(a, c);
    crate::ordering::lemma_lex_order_trans(na, nb, nc);
    if crate::ordering::lex_order(na, nb) == 0 && crate::ordering::lex_order(nb, nc) == 0 {
        crate::ordering::lemma_lex_order_trans(a, b, c);
        if a == c {
            assert(rule_order(b, a) < 0);
            lemma_rule_order_basics(a, b);
        }
    } else if crate::ordering::lex_order(na, nc) == 0 {
        assert(na == nc);
        crate::ordering::lemma_lex_order_trans(nc, na, nb);
    }
}

/// `l` lists exactly the sequences satisfying `p`, in increasing enumeration
/// order.
pub open spec fn enumerates(l: Seq<Seq<usize>>, p: spec_fn(Seq<usize>) -> bool) -> bool {
    &&& forall|i: int, j: int| 0 <= i < j < l.len() ==> rule_order(#[trigger] l[i], #[trigger] l[j]) < 0
    &&& forall|s: Seq<usize>| #[trigger] l.contains(s) <==> p(s)
}

/// The rule of a slot sequence: elements become pattern variables.
pub open spec fn rule_of(s: Seq<usize>, lhs: Seq<usize>, rhs: Seq<usize>) -> (Seq<Seq<Atom>>, Seq<Seq<Atom>>) {
    let sides = split_rule(s, lhs, rhs);
    (to_variables(sides.0), to_variables(sides.1))
}

/// The slot sequences `enumerate_rules` lists for a signature's arities.
pub open spec fn wanted_for(
    lhs: Seq<usize>,
    rhs: Seq<usize>,
    max_elements: Option<usize>,
    c: Connectivity,
) -> spec_fn(Seq<usize>) -> bool {
    let n = total(lhs + rhs);
    let max = match max_elements {
        Some(m) => if m < n { m } else { n as usize },
        None => n as usize,
    };
    |s: Seq<usize>| wanted(s, n as nat, max, lhs, rhs, c)
}

/// Comparison in the enumeration order.
fn rule_compare(a: &Vec<usize>, b: &Vec<usize>) -> (r: i8)
    ensures
        r as int == rule_order(a@, b@),
{
    let na = novelty_pattern(a);
    let nb = novelty_pattern(b);
    let xa = bools_as_numbers(&na);
    let xb = bools_as_numbers(&nb);
    let c = crate::ordering::lex_compare(&xa, &xb);
    if c != 0 {
        c
    } else {
        crate::ordering::lex_compare(a, b)
    }
}

/// 1 for `true`, 0 for `false`.
fn bools_as_numbers(v: &Vec<bool>) -> (r: Vec<usize>)
    ensures
        r@ == v@.map_values(|b: bool| if b { 1usize } else { 0usize }),
{
    let mut out: Vec<usize> = Vec::new();
    let mut i: usize = 0;
    while i < v.len()
        invariant
            i <= v.len(),
            out@ == v@.take(i as int).map_values(|b: bool| if b { 1usize } else { 0usize }),
        decreases v.len() - i,
    {
        out.push(if v[i] { 1 } else { 0 });
        proof {
            assert(out@ =~= v@.take(i + 1).map_values(|b: bool| if b { 1usize } else { 0usize }));
        }
        i = i + 1;
    }
    assert(v@.take(v.len() as int) =~= v@);
    out
}

/// The pattern variables of element edges: element `k` becomes `-k`.
fn edges_to_variables(es: &Vec<Vec<usize>>) -> (r: Vec<Vec<Atom>>)
    requires
        forall|i: int, j: int| 0 <= i < es.len() && 0 <= j < es@[i]@.len() ==> #[trigger] es@[i]@[j] <= i64::MAX,
    ensures
        crate::rule::edges_of(r) == to_variables(element_edges(es@)),
{
    let mut out: Vec<Vec<Atom>> = Vec::new();
    let mut i: usize = 0;
    while i < es.len()
        invariant
            i <= es.len(),
            forall|ii: int, j: int| 0 <= ii < es.len() && 0 <= j < es@[ii]@.len() ==> #[trigger] es@[ii]@[j] <= i64::MAX,
            out.len() == i,
            forall|k: int| 0 <= k < i ==> (#[trigger] out@[k])@ == to_variables(element_edges(es@))[k],
        decreases es.len() - i,
    {
        let e = &es[i];
        let mut row: Vec<Atom> = Vec::new();
        let mut j: usize = 0;
        while j < e.len()
            invariant
                j <= e.len(),
                i < es.len(),
                e == es@[i as int],
                forall|ii: int, jj: int| 0 <= ii < es.len() && 0 <= jj < es@[ii]@.len() ==> #[trigger] es@[ii]@[jj] <= i64::MAX,
                row.len() == j,
                forall|k: int| 0 <= k < j ==> #[trigger] row@[k] == -(e@[k] as int) as Atom,
            decreases e.len() - j,
        {
            assert(es@[i as int]@[j as int] <= i64::MAX);
            let x = e[j] as i64;
            row.push(-x);
            j = j + 1;
        }
        assert(row@ =~= to_variables(element_edges(es@))[i as int]);
        out.push(row);
        i = i + 1;
    }
    assert(crate::rule::edges_of(out) =~= to_variables(element_edges(es@)));
    out
}

/// All inequivalent rules of the signature, in `EnumerateWolframModelRules`
/// order: restricted-growth slot sequences (each renaming class once per
/// edge ordering) whose rule passes the connectivity constraint and equals
/// its canonical form, sorted by novelty pattern, then lexicographically.
/// Elements become pattern variables in the returned rules (canonical
/// element k becomes variable -k).
pub fn enumerate_rules(signature: &RuleSignature, options: &EnumerationOptions) -> (r: Result<Vec<Rule>, Error>)
    requires
        total(side_arities(signature.inputs@) + side_arities(signature.outputs@)) <= i64::MAX,
        total(side_arities(signature.inputs@) + side_arities(signature.outputs@)) <= usize::MAX,
    ensures
        r is Err <==> has_zero_arity(signature.inputs@) || has_zero_arity(signature.outputs@) || side_arities(
            signature.inputs@,
        ).len() == 0,
        r matches Err(e) ==> e is InvalidRule && e->InvalidRule_0@ == if has_zero_arity(signature.inputs@) || has_zero_arity(
            signature.outputs@,
        ) {
            "signature arities must be at least 1"@
        } else {
            "signature must have at least one input edge"@
        },
        r matches Ok(rules) ==> exists|l: Seq<Seq<usize>>|
            #[trigger] enumerates(
                l,
                wanted_for(
                    side_arities(signature.inputs@),
                    side_arities(signature.outputs@),
                    options.max_elements,
                    options.connectivity,
                ),
            ) && rules.len() == l.len() && forall|i: int|
                0 <= i < l.len() ==> (rules@[i].spec_inputs(), rules@[i].spec_outputs()) == rule_of(
                    #[trigger] l[i],
                    side_arities(signature.inputs@),
                    side_arities(signature.outputs@),
                ),
        r matches Ok(rules) ==> (!(options.connectivity is NoConstraint) ==> forall|i: int|
            0 <= i < rules.len() ==> crate::search::linked_edges(#[trigger] rules@[i].spec_inputs())),
{
    let la = match expand_signature_side(&signature.inputs) {
        Ok(v) => v,
        Err(e) => return Err(e),
    };
    let ra = match expand_signature_side(&signature.outputs) {
        Ok(v) => v,
        Err(e) => return Err(e),
    };
    if la.len() == 0 {
        return Err(Error::InvalidRule(String::from_str("signature must have at least one input edge")));
    }
    let ghost all = la@ + ra@;
    proof {
        lemma_total_bound(all);
        lemma_side_arities_positive(signature.inputs@);
        lemma_side_arities_positive(signature.outputs@);
        assert forall|i: int| 0 <= i < all.len() implies #[trigger] all[i] >= 1 by {
            if i < la.len() {
                assert(all[i] == la@[i]);
            } else {
                assert(all[i] == ra@[i - la.len()]);
            }
        }
        lemma_len_le_total(all);
    }
    let mut slot_count: usize = 0;
    let mut k: usize = 0;
    let n_ar = la.len() + ra.len();
    while k < n_ar
        invariant
            k <= n_ar,
            n_ar == all.len(),
            all == la@ + ra@,
            total(all) <= i64::MAX,
            total(all) <= usize::MAX,
            slot_count == total(all.take(k as int)),
        decreases n_ar - k,
    {
        let a = if k < la.len() {
            la[k]
        } else {
            ra[k - la.len()]
        };
        proof {
            assert(a == all[k as int]);
            assert(all.take(k + 1).drop_last() =~= all.take(k as int));
            lemma_total_prefix(all, k + 1);
        }
        proof {
            assert(all.take(k + 1).last() == a);
            assert(total(all.take(k + 1)) == total(all.take(k as int)) + a);
        }
        slot_count = slot_count + a;
        k = k + 1;
    }
    proof {
        assert(all.take(n_ar as int) =~= all);
    }
    let max_elements = match options.max_elements {
        Some(m) => if m < slot_count {
            m
        } else {
            slot_count
        },
        None => slot_count,
    };
    let mut slots: Vec<usize> = Vec::new();
    let mut q: usize = 0;
    while q < slot_count
        invariant
            q <= slot_count,
            slots.len() == q,
            forall|i: int| 0 <= i < q ==> #[trigger] slots@[i] == 0,
        decreases slot_count - q,
    {
        slots.push(0);
        q = q + 1;
    }
    let mut found: Vec<Vec<usize>> = Vec::new();
    proof {
        assert(slots@.take(0) =~= Seq::<usize>::empty());
        assert(found@.skip(0) =~= found@);
    }
    generate(0, 0, max_elements, &mut slots, &la, &ra, options.connectivity, &mut found);
    let ghost want = wanted_for(la@, ra@, options.max_elements, options.connectivity);
    let ghost fv = element_edges(found@);
    proof {
        assert(found@.skip(0) =~= found@);
        assert forall|s: Seq<usize>| #[trigger] fv.contains(s) <==> want(s) by {
            assert(s.take(0) =~= Seq::<usize>::empty());
        }
    }
    let mut sorted: Vec<Vec<usize>> = Vec::new();
    let mut i: usize = 0;
    while i < found.len()
        invariant
            i <= found.len(),
            fv == element_edges(found@),
            fv.no_duplicates(),
            forall|a: int, b: int| 0 <= a < b < sorted.len() ==> rule_order(#[trigger] sorted@[a]@, #[trigger] sorted@[b]@) < 0,
            forall|s: Seq<usize>| #[trigger] element_edges(sorted@).contains(s) <==> fv.take(i as int).contains(s),
        decreases found.len() - i,
    {
        let x = found[i].clone();
        proof {
            assert(x@ == fv[i as int]);
            assert(!fv.take(i as int).contains(x@)) by {
                if fv.take(i as int).contains(x@) {
                    let j = choose|j: int| 0 <= j < i && fv.take(i as int)[j] == x@;
                    assert(fv[j] == fv[i as int]);
                }
            }
        }
        let mut p: usize = 0;
        while p < sorted.len() && rule_compare(&x, &sorted[p]) >= 0
            invariant
                p <= sorted.len(),
                forall|q: int| 0 <= q < p ==> rule_order(x@, #[trigger] sorted@[q]@) >= 0,
            decreases sorted.len() - p,
        {
            p = p + 1;
        }
        let ghost before = sorted@;
        proof {
            assert forall|q: int| 0 <= q < p implies rule_order(#[trigger] before[q]@, x@) < 0 by {
                assert(element_edges(before).contains(before[q]@)) by {
                    assert(element_edges(before)[q] == before[q]@);
                }
                lemma_rule_order_basics(x@, before[q]@);
            }
        }
        sorted.insert(p, x);
        proof {
            assert(sorted@ =~= before.take(p as int).push(x).add(before.skip(p as int)));
            assert forall|a: int, b: int| 0 <= a < b < sorted.len() implies rule_order(#[trigger] sorted@[a]@, #[trigger] sorted@[b]@) < 0 by {
                if b < p {
                    assert(sorted@[a] == before[a] && sorted@[b] == before[b]);
                } else if b == p {
                    assert(sorted@[a] == before[a]);
                } else if a < p {
                    assert(sorted@[a] == before[a] && sorted@[b] == before[b - 1]);
                    if p < before.len() {
                        lemma_rule_order_basics(x@, before[p as int]@);
                    }
                    assert(rule_order(before[a]@, x@) < 0);
                    if b - 1 == p as int {
                        lemma_rule_order_basics(x@, before[p as int]@);
                        lemma_rule_order_trans(before[a]@, x@, before[p as int]@);
                    } else {
                        lemma_rule_order_basics(x@, before[p as int]@);
                        lemma_rule_order_trans(x@, before[p as int]@, before[b - 1]@);
                        lemma_rule_order_trans(before[a]@, x@, before[b - 1]@);
                    }
                } else if a == p {
                    assert(sorted@[b] == before[b - 1]);
                    lemma_rule_order_basics(x@, before[p as int]@);
                    if b - 1 > p {
                        lemma_rule_order_trans(x@, before[p as int]@, before[b - 1]@);
                    }
                } else {
                    assert(sorted@[a] == before[a - 1] && sorted@[b] == before[b - 1]);
                }
            }
            assert(fv.take(i + 1) =~= fv.take(i as int).push(x@));
            assert forall|s: Seq<usize>| #[trigger] element_edges(sorted@).contains(s) <==> fv.take(i + 1).contains(s) by {
                if element_edges(sorted@).contains(s) {
                    let j = choose|j: int| 0 <= j < sorted.len() && element_edges(sorted@)[j] == s;
                    if j < p {
                        assert(element_edges(before)[j] == s);
                        assert(element_edges(before).contains(s));
                    } else if j > p {
                        assert(element_edges(before)[j - 1] == s);
                        assert(element_edges(before).contains(s));
                    }
                }
                if fv.take(i as int).contains(s) {
                    assert(element_edges(before).contains(s));
                    let j = choose|j: int| 0 <= j < before.len() && element_edges(before)[j] == s;
                    if j < p {
                        assert(element_edges(sorted@)[j] == s);
                    } else {
                        assert(element_edges(sorted@)[j + 1] == s);
                    }
                }
                if s == x@ {
                    assert(element_edges(sorted@)[p as int] == s);
                }
            }
        }
        i = i + 1;
    }
    proof {
        assert(fv.take(found.len() as int) =~= fv);
    }
    let mut rules: Vec<Rule> = Vec::new();
    let mut t: usize = 0;
    while t < sorted.len()
        invariant
            t <= sorted.len(),
            rules.len() == t,
            forall|s: Seq<usize>| #[trigger] element_edges(sorted@).contains(s) <==> want(s),
            want == wanted_for(la@, ra@, options.max_elements, options.connectivity),
            total(la@ + ra@) <= i64::MAX,
            la.len() + ra.len() <= usize::MAX,
            forall|q: int| 0 <= q < t ==> ((#[trigger] rules@[q]).spec_inputs(), rules@[q].spec_outputs()) == rule_of(
                sorted@[q]@,
                la@,
                ra@,
            ),
        decreases sorted.len() - t,
    {
        proof {
            assert(element_edges(sorted@).contains(sorted@[t as int]@)) by {
                assert(element_edges(sorted@)[t as int] == sorted@[t as int]@);
            }
            assert(want(sorted@[t as int]@));
            let sv = sorted@[t as int]@;
            let n = total(la@ + ra@);
            let mx = match options.max_elements {
                Some(m) => if m < n { m } else { n as usize },
                None => n as usize,
            };
            lemma_total_bound(la@ + ra@);
            assert(wanted(sv, n as nat, mx, la@, ra@, options.connectivity));
            assert(sv.len() == n);
            assert forall|i: int| 0 <= i < sv.len() implies 1 <= #[trigger] sv[i] <= sv.len() && sv[i] <= prefix_max(sv, i) + 1 by {
                assert(1 <= sv[i] <= mx && sv[i] <= prefix_max(sv, i) + 1);
            }
        }
        let rule = rule_from_slots(&sorted[t], &la, &ra);
        rules.push(rule);
        t = t + 1;
    }
    proof {
        let l = element_edges(sorted@);
        assert forall|a: int, b: int| 0 <= a < b < l.len() implies rule_order(#[trigger] l[a], #[trigger] l[b]) < 0 by {
            assert(l[a] == sorted@[a]@ && l[b] == sorted@[b]@);
        }
        assert(enumerates(l, want));
        assert forall|q: int| 0 <= q < l.len() implies (rules@[q].spec_inputs(), rules@[q].spec_outputs()) == rule_of(
            #[trigger] l[q],
            la@,
            ra@,
        ) by {
            assert(l[q] == sorted@[q]@);
        }
        if !(options.connectivity is NoConstraint) {
            assert forall|q: int| 0 <= q < rules.len() implies crate::search::linked_edges(#[trigger] rules@[q].spec_inputs()) by {
                assert(l[q] == sorted@[q]@);
                assert(l.contains(l[q]));
                enumerated_rules_have_connected_inputs(l, la@, ra@, options.max_elements, options.connectivity, l[q]);
            }
        }
    }
    Ok(rules)
}

proof fn lemma_total_bound(s: Seq<usize>)
    ensures
        total(s) >= 0,
    decreases s.len(),
{
    if s.len() > 0 {
        lemma_total_bound(s.drop_last());
    }
}

/// Every element of a slice of a restricted-growth sequence is at most its
/// length.
proof fn lemma_slices_elements(s: Seq<usize>, arities: Seq<usize>)
    requires
        total(arities) <= s.len(),
        s.len() <= i64::MAX,
        forall|i: int| 0 <= i < s.len() ==> #[trigger] s[i] <= s.len(),
    ensures
        forall|a: int, b: int| 0 <= a < slices(s, arities).len() && 0 <= b < slices(s, arities)[a].len() ==> #[trigger] slices(s, arities)[a][b] <= i64::MAX,
    decreases arities.len(),
{
    if arities.len() > 0 {
        lemma_total_prefix(arities, arities.len() - 1);
        assert(arities.take(arities.len() - 1) =~= arities.drop_last());
        lemma_slices_elements(s, arities.drop_last());
        let prev = slices(s, arities.drop_last());
        lemma_slices_len(s, arities.drop_last());
        let at = total(arities.drop_last());
        assert forall|a: int, b: int| 0 <= a < slices(s, arities).len() && 0 <= b < slices(s, arities)[a].len() implies #[trigger] slices(s, arities)[a][b] <= i64::MAX by {
            if a < prev.len() {
                assert(slices(s, arities)[a] == prev[a]);
            } else {
                assert(slices(s, arities)[a] == s.subrange(at, at + arities.last()));
                assert(s.subrange(at, at + arities.last())[b] == s[at + b]);
            }
        }
    }
}


/// The rule whose slots are `s`.
fn rule_from_slots(s: &Vec<usize>, la: &Vec<usize>, ra: &Vec<usize>) -> (r: Rule)
    requires
        s.len() == total(la@ + ra@),
        total(la@ + ra@) <= i64::MAX,
        la.len() + ra.len() <= usize::MAX,
        restricted_growth(s@, s.len()),
    ensures
        (r.spec_inputs(), r.spec_outputs()) == rule_of(s@, la@, ra@),
{
    let (l, o) = split_edges(s, la, ra);
    proof {
        let sv = s@;
        let all = la@ + ra@;
        lemma_slices_len(sv, all);
        lemma_slices_elements(sv, all);
        let sl = slices(sv, all);
        assert(element_edges(l@).len() == l@.len());
        assert(element_edges(o@).len() == o@.len());
        assert forall|a: int, b: int| 0 <= a < l.len() && 0 <= b < l@[a]@.len() implies #[trigger] l@[a]@[b] <= i64::MAX by {
            assert(element_edges(l@)[a] == l@[a]@);
            assert(sl.take(la.len() as int)[a] == sl[a]);
            assert(sl[a][b] <= i64::MAX);
        }
        assert forall|a: int, b: int| 0 <= a < o.len() && 0 <= b < o@[a]@.len() implies #[trigger] o@[a]@[b] <= i64::MAX by {
            assert(element_edges(o@)[a] == o@[a]@);
            assert(sl.skip(la.len() as int)[a] == sl[la.len() + a]);
            assert(sl[la.len() + a][b] <= i64::MAX);
        }
    }
    let inputs = edges_to_variables(&l);
    let outputs = edges_to_variables(&o);
    Rule { inputs, outputs }
}

proof fn lemma_insert_arity_positive(sorted: Seq<(usize, usize)>, g: (usize, usize))
    requires
        g.1 >= 1,
        forall|i: int| 0 <= i < sorted.len() ==> #[trigger] sorted[i].1 >= 1,
    ensures
        forall|i: int| 0 <= i < insert_by_arity(sorted, g).len() ==> #[trigger] insert_by_arity(sorted, g)[i].1 >= 1,
    decreases sorted.len(),
{
    if sorted.len() > 0 && sorted[0].1 >= g.1 {
        let rest = sorted.drop_first();
        assert forall|i: int| 0 <= i < rest.len() implies #[trigger] rest[i].1 >= 1 by {
            assert(rest[i] == sorted[i + 1]);
        }
        lemma_insert_arity_positive(rest, g);
        let ins = insert_by_arity(sorted, g);
        assert forall|i: int| 0 <= i < ins.len() implies #[trigger] ins[i].1 >= 1 by {
            if i > 0 {
                assert(ins[i] == insert_by_arity(rest, g)[i - 1]);
            }
        }
    } else {
        let ins = insert_by_arity(sorted, g);
        assert forall|i: int| 0 <= i < ins.len() implies #[trigger] ins[i].1 >= 1 by {
            if sorted.len() > 0 && i > 0 {
                assert(ins[i] == sorted[i - 1]);
            }
        }
    }
}

proof fn lemma_sort_arity_positive(gs: Seq<(usize, usize)>)
    requires
        forall|i: int| 0 <= i < gs.len() ==> #[trigger] gs[i].1 >= 1,
    ensures
        forall|i: int| 0 <= i < sort_by_arity(gs).len() ==> #[trigger] sort_by_arity(gs)[i].1 >= 1,
    decreases gs.len(),
{
    if gs.len() > 0 {
        assert forall|i: int| 0 <= i < gs.drop_last().len() implies #[trigger] gs.drop_last()[i].1 >= 1 by {
            assert(gs.drop_last()[i] == gs[i]);
        }
        lemma_sort_arity_positive(gs.drop_last());
        assert(gs.last() == gs[gs.len() - 1]);
        lemma_insert_arity_positive(sort_by_arity(gs.drop_last()), gs.last());
    }
}

proof fn lemma_expand_positive(gs: Seq<(usize, usize)>)
    requires
        forall|i: int| 0 <= i < gs.len() ==> #[trigger] gs[i].1 >= 1,
    ensures
        forall|i: int| 0 <= i < expand_groups(gs).len() ==> #[trigger] expand_groups(gs)[i] >= 1,
    decreases gs.len(),
{
    if gs.len() > 0 {
        assert forall|i: int| 0 <= i < gs.drop_last().len() implies #[trigger] gs.drop_last()[i].1 >= 1 by {
            assert(gs.drop_last()[i] == gs[i]);
        }
        lemma_expand_positive(gs.drop_last());
        assert(gs.last() == gs[gs.len() - 1]);
        let prev = expand_groups(gs.drop_last());
        assert forall|i: int| 0 <= i < expand_groups(gs).len() implies #[trigger] expand_groups(gs)[i] >= 1 by {
            if i < prev.len() {
                assert(expand_groups(gs)[i] == prev[i]);
            }
        }
    }
}

/// Without zero arities, every edge of a side has arity at least 1.
proof fn lemma_side_arities_positive(gs: Seq<(usize, usize)>)
    ensures
        !has_zero_arity(gs) ==> forall|i: int| 0 <= i < side_arities(gs).len() ==> #[trigger] side_arities(gs)[i] >= 1,
{
    if !has_zero_arity(gs) {
        assert forall|i: int| 0 <= i < gs.len() implies #[trigger] gs[i].1 >= 1 by {
            if gs[i].1 == 0 {
                assert(has_zero_arity(gs));
            }
        }
        lemma_sort_arity_positive(gs);
        lemma_expand_positive(sort_by_arity(gs));
    }
}

/// With every entry at least 1, the sum is at least the length.
proof fn lemma_len_le_total(s: Seq<usize>)
    requires
        forall|i: int| 0 <= i < s.len() ==> #[trigger] s[i] >= 1,
    ensures
        s.len() <= total(s),
    decreases s.len(),
{
    if s.len() > 0 {
        assert forall|i: int| 0 <= i < s.drop_last().len() implies #[trigger] s.drop_last()[i] >= 1 by {
            assert(s.drop_last()[i] == s[i]);
        }
        lemma_len_le_total(s.drop_last());
        assert(s.last() == s[s.len() - 1]);
    }
}

/// Connected elements stay connected as pattern variables: edges that share
/// an element share its variable.
proof fn lemma_connected_linked(es: Seq<Seq<usize>>)
    requires
        connected(es),
    ensures
        crate::search::linked_edges(to_variables(es)),
{
    let tv = to_variables(es);
    assert forall|part: Set<int>| #[trigger] crate::search::closed_group(tv, part) implies (forall|i: int|
        0 <= i < tv.len() ==> part.contains(i)) || (forall|i: int| 0 <= i < tv.len() ==> !part.contains(i)) by {
        assert forall|i: int, j: int|
            0 <= i < es.len() && 0 <= j < es.len() && #[trigger] part.contains(i) && !#[trigger] part.contains(j) implies !share(
            es[i],
            es[j],
        ) by {
            if share(es[i], es[j]) {
                let x = choose|x: usize| es[i].contains(x) && #[trigger] es[j].contains(x);
                let ki = choose|k: int| 0 <= k < es[i].len() && es[i][k] == x;
                let kj = choose|k: int| 0 <= k < es[j].len() && es[j][k] == x;
                let y = tv[i][ki];
                assert(tv[j][kj] == y);
                assert(tv[i].contains(y));
                assert(tv[j].contains(y));
                assert(crate::search::edges_share(tv[i], tv[j]));
            }
        }
        assert(closed_part(es, part));
    }
}

/// Law: under the default connectivity, and under `All`, every rule the
/// enumeration lists has connected inputs (and is connected as a whole), so
/// the engine never finds its inputs disconnected; under `All` its outputs
/// are connected too.
pub proof fn enumerated_rules_have_connected_inputs(
    l: Seq<Seq<usize>>,
    lhs: Seq<usize>,
    rhs: Seq<usize>,
    max_elements: Option<usize>,
    c: Connectivity,
    s: Seq<usize>,
)
    requires
        enumerates(l, wanted_for(lhs, rhs, max_elements, c)),
        !(c is NoConstraint),
        l.contains(s),
    ensures
        connected(split_rule(s, lhs, rhs).0),
        connected(split_rule(s, lhs, rhs).0 + split_rule(s, lhs, rhs).1),
        crate::search::linked_edges(rule_of(s, lhs, rhs).0),
        c is All ==> connected(split_rule(s, lhs, rhs).1),
{
    assert(wanted_for(lhs, rhs, max_elements, c)(s));
    lemma_connected_linked(split_rule(s, lhs, rhs).0);
}

} // verus!
