//! Vertex lists and vertex labels for drawing hypergraphs.

use std::collections::HashMap;
use std::collections::HashSet;

use vstd::prelude::*;

use crate::rule::Atom;
use crate::text::push_char;
use crate::text::push_signed_decimal;
use crate::text::signed_decimal;

verus! {

broadcast use {vstd::std_specs::hash::group_hash_axioms, vstd::seq_lib::lemma_seq_contains_after_push};

/// All atoms of `edges`, edge after edge, each edge in order.
pub open spec fn atom_sequence(edges: Seq<Seq<Atom>>) -> Seq<Atom>
    decreases edges.len(),
{
    if edges.len() == 0 {
        Seq::empty()
    } else {
        atom_sequence(edges.drop_last()) + edges.last()
    }
}

/// The distinct entries of `s`, each where it first appears.
pub open spec fn first_appearances(s: Seq<Atom>) -> Seq<Atom>
    decreases s.len(),
{
    if s.len() == 0 {
        Seq::empty()
    } else {
        let p = first_appearances(s.drop_last());
        if p.contains(s.last()) {
            p
        } else {
            p.push(s.last())
        }
    }
}

/// The label of a vertex: `v` and the atom for atoms from `fresh_from` on,
/// the plain number otherwise.
pub open spec fn vertex_label(a: Atom, fresh_from: Atom) -> Seq<char> {
    if a >= fresh_from {
        seq!['v'] + signed_decimal(a as int)
    } else {
        signed_decimal(a as int)
    }
}

/// The vertices of `edges` in order of first appearance.
pub fn vertex_list(edges: &[Vec<Atom>]) -> (r: Vec<Atom>)
    ensures
        r@ == first_appearances(atom_sequence(crate::slice_edges(edges@))),
{
    let ghost es = crate::slice_edges(edges@);
    let mut seen: HashSet<Atom> = HashSet::new();
    let mut out: Vec<Atom> = Vec::new();
    let mut i: usize = 0;
    proof {
        assert(es.take(0) =~= Seq::<Seq<Atom>>::empty());
    }
    while i < edges.len()
        invariant
            i <= edges.len(),
            es == crate::slice_edges(edges@),
            out@ == first_appearances(atom_sequence(es.take(i as int))),
            forall|x: Atom| seen@.contains(x) <==> out@.contains(x),
        decreases edges.len() - i,
    {
        let edge = &edges[i];
        let ghost before = atom_sequence(es.take(i as int));
        let mut j: usize = 0;
        proof {
            assert(before + edge@.take(0) =~= before);
        }
        while j < edge.len()
            invariant
                j <= edge.len(),
                out@ == first_appearances(before + edge@.take(j as int)),
                forall|x: Atom| seen@.contains(x) <==> out@.contains(x),
            decreases edge.len() - j,
        {
            let a = edge[j];
            let ghost cur = before + edge@.take(j as int);
            proof {
                assert(before + edge@.take(j + 1) =~= cur.push(a));
                assert(cur.push(a).drop_last() =~= cur);
            }
            if seen.insert(a) {
                out.push(a);
            }
            j = j + 1;
        }
        proof {
            assert(es.take(i + 1).drop_last() =~= es.take(i as int));
            assert(es[i as int] == edge@);
            assert(edge@.take(edge.len() as int) =~= edge@);
        }
        i = i + 1;
    }
    proof {
        assert(es.take(edges.len() as int) =~= es);
    }
    out
}

/// The label text of one vertex.
fn label_text(a: Atom, fresh_from: Atom) -> (s: String)
    ensures
        s@ == vertex_label(a, fresh_from),
{
    let mut s = String::new();
    if a >= fresh_from {
        push_char(&mut s, 'v');
    }
    push_signed_decimal(&mut s, a);
    proof {
        if a >= fresh_from {
            assert(s@ =~= seq!['v'] + signed_decimal(a as int));
        } else {
            assert(s@ =~= signed_decimal(a as int));
        }
    }
    s
}

/// A label for every vertex of `edges`: atoms from `fresh_from` on are
/// written `v<atom>` (the names of generated vertices), the others as plain
/// integers.
pub fn readme_style_labels(edges: &[Vec<Atom>], fresh_from: Atom) -> (r: HashMap<Atom, String>)
    ensures
        forall|a: Atom| #[trigger] r@.contains_key(a) <==> atom_sequence(crate::slice_edges(edges@)).contains(a),
        forall|a: Atom| #[trigger] r@.contains_key(a) ==> r@[a]@ == vertex_label(a, fresh_from),
{
    let vs = vertex_list(edges);
    proof {
        lemma_first_appearances(atom_sequence(crate::slice_edges(edges@)));
        assert(vs@.take(0) =~= Seq::<Atom>::empty());
    }
    let mut m: HashMap<Atom, String> = HashMap::new();
    let mut i: usize = 0;
    while i < vs.len()
        invariant
            i <= vs.len(),
            forall|a: Atom| #[trigger] m@.contains_key(a) <==> vs@.take(i as int).contains(a),
            forall|a: Atom| #[trigger] m@.contains_key(a) ==> m@[a]@ == vertex_label(a, fresh_from),
        decreases vs.len() - i,
    {
        let a = vs[i];
        let label = label_text(a, fresh_from);
        m.insert(a, label);
        proof {
            assert(vs@.take(i + 1) =~= vs@.take(i as int).push(a));
        }
        i = i + 1;
    }
    proof {
        assert(vs@.take(vs.len() as int) =~= vs@);
    }
    m
}

/// The first appearances of `s` hold each entry of `s` exactly once.
proof fn lemma_first_appearances(s: Seq<Atom>)
    ensures
        first_appearances(s).no_duplicates(),
        forall|x: Atom| #[trigger] first_appearances(s).contains(x) <==> s.contains(x),
    decreases s.len(),
{
    if s.len() > 0 {
        let d = s.drop_last();
        lemma_first_appearances(d);
        assert forall|x: Atom| #[trigger] s.contains(x) <==> d.contains(x) || x == s.last() by {
            if s.contains(x) {
                let k = choose|k: int| 0 <= k < s.len() && s[k] == x;
                if k < s.len() - 1 {
                    assert(d[k] == x);
                }
            }
            if d.contains(x) {
                let k = choose|k: int| 0 <= k < d.len() && d[k] == x;
                assert(s[k] == x);
            }
            if x == s.last() {
                assert(s[s.len() - 1] == x);
            }
        }
    }
}

/// Law: the vertex list of any edges holds every atom of the edges, and
/// nothing else, exactly once.
pub proof fn vertex_list_lists_each_atom_once(edges: Seq<Seq<Atom>>)
    ensures
        first_appearances(atom_sequence(edges)).no_duplicates(),
        forall|x: Atom| #[trigger] first_appearances(atom_sequence(edges)).contains(x) <==> atom_sequence(edges).contains(x),
{
    lemma_first_appearances(atom_sequence(edges));
}

} // verus!
