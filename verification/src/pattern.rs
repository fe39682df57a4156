//! Variable bindings and the unification of pattern edges with tokens.
//!
//! A binding maps pattern variables (negative atoms) to concrete atoms.
//! Applying it to an atom replaces a bound variable by its value and leaves
//! every other atom unchanged.

use vstd::prelude::*;

use crate::rule::Atom;

verus! {

/// The image of one atom under a binding.
pub open spec fn apply_atom(s: Map<Atom, Atom>, a: Atom) -> Atom {
    if a < 0 && s.dom().contains(a) {
        s[a]
    } else {
        a
    }
}

/// The image of an edge under a binding.
pub open spec fn apply_edge(s: Map<Atom, Atom>, e: Seq<Atom>) -> Seq<Atom> {
    e.map_values(|a: Atom| apply_atom(s, a))
}

/// The image of a list of edges under a binding.
pub open spec fn apply_edges(s: Map<Atom, Atom>, es: Seq<Seq<Atom>>) -> Seq<Seq<Atom>> {
    es.map_values(|e: Seq<Atom>| apply_edge(s, e))
}

/// A binding as the matcher builds them: variables to positive atoms.
pub open spec fn proper_binding(s: Map<Atom, Atom>) -> bool {
    &&& forall|k: Atom| #[trigger] s.dom().contains(k) ==> k < 0
    &&& forall|k: Atom| #[trigger] s.dom().contains(k) ==> s[k] > 0
}

/// `t` binds every variable of `s` to the same atom.
pub open spec fn extends(s: Map<Atom, Atom>, t: Map<Atom, Atom>) -> bool {
    forall|k: Atom| #[trigger] s.dom().contains(k) ==> t.dom().contains(k) && t[k] == s[k]
}

/// Every atom of the edge is a concrete (positive) atom.
pub open spec fn all_positive(e: Seq<Atom>) -> bool {
    forall|i: int| 0 <= i < e.len() ==> #[trigger] e[i] > 0
}

/// Unification of `p` with `a` from position `i` on, extending `s`: a
/// variable not yet bound is bound to the atom it faces; any other atom (after
/// applying `s`) must equal the atom it faces.
pub open spec fn unify_from(s: Map<Atom, Atom>, p: Seq<Atom>, a: Seq<Atom>, i: int) -> Option<Map<Atom, Atom>>
    decreases p.len() - i,
{
    if i < 0 || i >= p.len() || i >= a.len() {
        Some(s)
    } else {
        let c = apply_atom(s, p[i]);
        if c < 0 {
            unify_from(s.insert(c, a[i]), p, a, i + 1)
        } else if c == a[i] {
            unify_from(s, p, a, i + 1)
        } else {
            None
        }
    }
}

/// Unification of a pattern edge with an edge of atoms, extending `s`:
/// `None` when they differ in length or cannot be made equal.
pub open spec fn unify_spec(s: Map<Atom, Atom>, p: Seq<Atom>, a: Seq<Atom>) -> Option<Map<Atom, Atom>> {
    if p.len() != a.len() {
        None
    } else {
        unify_from(s, p, a, 0)
    }
}

/// What unification produces: a proper binding extending `s` under which the
/// pattern becomes the atoms.
pub proof fn lemma_unify_sound(s: Map<Atom, Atom>, p: Seq<Atom>, a: Seq<Atom>, i: int)
    requires
        proper_binding(s),
        all_positive(a),
        p.len() == a.len(),
        0 <= i <= p.len(),
        unify_from(s, p, a, i) is Some,
    ensures
        proper_binding(unify_from(s, p, a, i)->Some_0),
        extends(s, unify_from(s, p, a, i)->Some_0),
        forall|k: int| i <= k < p.len() ==> apply_atom(unify_from(s, p, a, i)->Some_0, #[trigger] p[k]) == a[k],
    decreases p.len() - i,
{
    if i < p.len() {
        let c = apply_atom(s, p[i]);
        if c < 0 {
            let s1 = s.insert(c, a[i]);
            assert(c == p[i] && !s.dom().contains(c));
            assert(proper_binding(s1));
            lemma_unify_sound(s1, p, a, i + 1);
            let r = unify_from(s1, p, a, i + 1)->Some_0;
            assert(s1.dom().contains(c));
            assert(apply_atom(r, p[i]) == a[i]);
            assert forall|k: Atom| #[trigger] s.dom().contains(k) implies r.dom().contains(k) && r[k] == s[k] by {
                assert(s1.dom().contains(k));
            }
        } else {
            lemma_unify_sound(s, p, a, i + 1);
            let r = unify_from(s, p, a, i + 1)->Some_0;
            if p[i] < 0 && s.dom().contains(p[i]) {
                assert(r.dom().contains(p[i]));
            }
            assert(apply_atom(r, p[i]) == a[i]);
        }
    }
}

/// Unification finds the least binding: whenever some binding `t` extending
/// `s` makes the pattern equal to the atoms, unification succeeds and `t`
/// extends its result.
pub proof fn lemma_unify_complete(s: Map<Atom, Atom>, t: Map<Atom, Atom>, p: Seq<Atom>, a: Seq<Atom>, i: int)
    requires
        proper_binding(s),
        all_positive(a),
        p.len() == a.len(),
        0 <= i <= p.len(),
        extends(s, t),
        forall|k: int| i <= k < p.len() ==> apply_atom(t, #[trigger] p[k]) == a[k],
    ensures
        unify_from(s, p, a, i) is Some,
        extends(unify_from(s, p, a, i)->Some_0, t),
    decreases p.len() - i,
{
    if i < p.len() {
        let c = apply_atom(s, p[i]);
        assert(apply_atom(t, p[i]) == a[i]);
        if c < 0 {
            let s1 = s.insert(c, a[i]);
            assert(extends(s1, t));
            assert(proper_binding(s1));
            lemma_unify_complete(s1, t, p, a, i + 1);
        } else {
            lemma_unify_complete(s, t, p, a, i + 1);
        }
    }
}

/// Applying a proper binding and then an extension of it is applying the extension.
pub proof fn lemma_apply_compose(m: Map<Atom, Atom>, t: Map<Atom, Atom>, x: Atom)
    requires
        proper_binding(m),
        extends(m, t),
    ensures
        apply_atom(t, apply_atom(m, x)) == apply_atom(t, x),
{
}

/// The binding `m` taking precedence over `t`.
pub open spec fn overlay(t: Map<Atom, Atom>, m: Map<Atom, Atom>) -> Map<Atom, Atom> {
    t.union_prefer_right(m)
}

/// Applying `overlay(t, m)` is applying `m`, then `t`.
pub proof fn lemma_overlay(t: Map<Atom, Atom>, m: Map<Atom, Atom>, x: Atom)
    requires
        proper_binding(m),
    ensures
        apply_atom(overlay(t, m), x) == apply_atom(t, apply_atom(m, x)),
        extends(m, overlay(t, m)),
{
}

/// A binding leaves an edge of concrete atoms unchanged.
pub proof fn lemma_apply_positive(m: Map<Atom, Atom>, e: Seq<Atom>)
    requires
        all_positive(e),
    ensures
        apply_edge(m, e) == e,
{
    assert(apply_edge(m, e) =~= e);
}

/// A binding for the matcher: variables to atoms, kept as two parallel vectors.
pub struct Binding {
    keys: Vec<Atom>,
    vals: Vec<Atom>,
    map: Ghost<Map<Atom, Atom>>,
}

impl View for Binding {
    type V = Map<Atom, Atom>;

    closed spec fn view(&self) -> Map<Atom, Atom> {
        self.map@
    }
}

impl Binding {
    /// Internal consistency of the two vectors with the binding they represent.
    pub closed spec fn wf(&self) -> bool {
        &&& self.keys.len() == self.vals.len()
        &&& self.keys@.no_duplicates()
        &&& forall|k: Atom| #[trigger] self.map@.dom().contains(k) <==> self.keys@.contains(k)
        &&& forall|i: int| 0 <= i < self.keys.len() ==> self.map@[#[trigger] self.keys@[i]] == self.vals@[i]
    }

    /// The empty binding.
    pub fn new() -> (b: Binding)
        ensures
            b.wf(),
            b@ == Map::<Atom, Atom>::empty(),
    {
        Binding { keys: Vec::new(), vals: Vec::new(), map: Ghost(Map::empty()) }
    }

    /// The value bound to `k`, if any.
    pub fn get(&self, k: Atom) -> (r: Option<Atom>)
        requires
            self.wf(),
        ensures
            r matches Some(v) ==> self@.dom().contains(k) && self@[k] == v,
            r is None ==> !self@.dom().contains(k),
    {
        let mut i: usize = 0;
        while i < self.keys.len()
            invariant
                self.wf(),
                i <= self.keys.len(),
                forall|j: int| 0 <= j < i ==> self.keys@[j] != k,
            decreases self.keys.len() - i,
        {
            if self.keys[i] == k {
                return Some(self.vals[i]);
            }
            i = i + 1;
        }
        None
    }

    /// Binds `k`, which must be unbound, to `v`.
    pub fn insert(&mut self, k: Atom, v: Atom)
        requires
            old(self).wf(),
            !old(self)@.dom().contains(k),
        ensures
            final(self).wf(),
            final(self)@ == old(self)@.insert(k, v),
    {
        let ghost m0 = self.map@;
        self.keys.push(k);
        self.vals.push(v);
        self.map = Ghost(m0.insert(k, v));
        proof {
            assert forall|kk: Atom| #[trigger] self.map@.dom().contains(kk) <==> self.keys@.contains(kk) by {
                if kk == k {
                    assert(self.keys@[self.keys.len() - 1] == k);
                } else if self.keys@.contains(kk) {
                    let j = choose|j: int| 0 <= j < self.keys.len() && self.keys@[j] == kk;
                    assert(old(self).keys@[j] == kk);
                } else if m0.dom().contains(kk) {
                    assert(old(self).keys@.contains(kk));
                    let j = choose|j: int| 0 <= j < old(self).keys.len() && old(self).keys@[j] == kk;
                    assert(self.keys@[j] == kk);
                }
            }
        }
    }
}

/// Matches one pattern edge against one token's atoms, extending `map`.
/// Repeated variables must agree, and concrete atoms (including ones
/// substituted earlier) must be equal. On failure `map` holds a binding of no
/// further use.
pub fn unify_edge(pattern: &Vec<Atom>, atoms: &Vec<Atom>, map: &mut Binding) -> (r: bool)
    requires
        old(map).wf(),
        proper_binding(old(map)@),
        all_positive(atoms@),
    ensures
        final(map).wf(),
        proper_binding(final(map)@),
        r == unify_spec(old(map)@, pattern@, atoms@) is Some,
        r ==> final(map)@ == unify_spec(old(map)@, pattern@, atoms@)->Some_0,
{
    if pattern.len() != atoms.len() {
        return false;
    }
    let mut i: usize = 0;
    while i < pattern.len()
        invariant
            map.wf(),
            proper_binding(map@),
            all_positive(atoms@),
            i <= pattern.len(),
            pattern.len() == atoms.len(),
            unify_spec(old(map)@, pattern@, atoms@) == unify_from(map@, pattern@, atoms@, i as int),
        decreases pattern.len() - i,
    {
        let p = pattern[i];
        let a = atoms[i];
        let current = if p < 0 {
            match map.get(p) {
                Some(v) => v,
                None => p,
            }
        } else {
            p
        };
        if current < 0 {
            map.insert(current, a);
        } else if current != a {
            return false;
        }
        i = i + 1;
    }
    true
}

/// Applies a binding to every atom of every edge.
pub fn substitute(patterns: &Vec<Vec<Atom>>, map: &Binding) -> (r: Vec<Vec<Atom>>)
    requires
        map.wf(),
    ensures
        r@.map_values(|e: Vec<Atom>| e@) == apply_edges(map@, patterns@.map_values(|e: Vec<Atom>| e@)),
{
    let ghost src = patterns@.map_values(|e: Vec<Atom>| e@);
    let mut out: Vec<Vec<Atom>> = Vec::new();
    let mut i: usize = 0;
    while i < patterns.len()
        invariant
            i <= patterns.len(),
            map.wf(),
            src == patterns@.map_values(|e: Vec<Atom>| e@),
            out@.len() == i,
            forall|k: int| 0 <= k < i ==> #[trigger] out@[k]@ == apply_edge(map@, src[k]),
        decreases patterns.len() - i,
    {
        let e = &patterns[i];
        let mut row: Vec<Atom> = Vec::new();
        let mut j: usize = 0;
        while j < e.len()
            invariant
                j <= e.len(),
                map.wf(),
                row@.len() == j,
                forall|k: int| 0 <= k < j ==> #[trigger] row@[k] == apply_atom(map@, e@[k]),
            decreases e.len() - j,
        {
            let a = e[j];
            let v = if a < 0 {
                match map.get(a) {
                    Some(v) => v,
                    None => a,
                }
            } else {
                a
            };
            row.push(v);
            j = j + 1;
        }
        assert(row@ =~= apply_edge(map@, src[i as int]));
        out.push(row);
        i = i + 1;
    }
    assert(out@.map_values(|e: Vec<Atom>| e@) =~= apply_edges(map@, src));
    out
}

} // verus!
