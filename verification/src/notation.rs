//! Rules written out in Wolfram-style list notation.

use vstd::prelude::*;

use crate::enumerate::no_min_atom;
use crate::rule::Atom;
use crate::rule::Rule;
use crate::text::decimal;
use crate::text::push_char;
use crate::text::push_decimal;

verus! {

/// An atom: concrete atoms as numbers, pattern variable `-k` as `xk`.
pub open spec fn atom_text(a: Atom) -> Seq<char> {
    if a < 0 {
        seq!['x'] + decimal((-a) as nat)
    } else {
        decimal(a as nat)
    }
}

/// Items separated by `", "`.
pub open spec fn joined(items: Seq<Seq<char>>) -> Seq<char>
    decreases items.len(),
{
    if items.len() == 0 {
        Seq::empty()
    } else if items.len() == 1 {
        items[0]
    } else {
        joined(items.drop_last()) + ", "@ + items.last()
    }
}

/// An edge: `{a, b, ...}`.
pub open spec fn edge_text(e: Seq<Atom>) -> Seq<char> {
    seq!['{'] + joined(e.map_values(|a: Atom| atom_text(a))) + seq!['}']
}

/// A list of edges: `{{...}, {...}}`.
pub open spec fn side_text(es: Seq<Seq<Atom>>) -> Seq<char> {
    seq!['{'] + joined(es.map_values(|e: Seq<Atom>| edge_text(e))) + seq!['}']
}

/// A rule: `inputs -> outputs`.
pub open spec fn rule_notation(inputs: Seq<Seq<Atom>>, outputs: Seq<Seq<Atom>>) -> Seq<char> {
    side_text(inputs) + " -> "@ + side_text(outputs)
}

fn push_atom(s: &mut String, a: Atom)
    requires
        a != i64::MIN,
    ensures
        final(s)@ == old(s)@ + atom_text(a),
{
    if a < 0 {
        push_char(s, 'x');
        push_decimal(s, (-a) as u64);
        proof {
            assert(final(s)@ =~= old(s)@ + atom_text(a));
        }
    } else {
        push_decimal(s, a as u64);
    }
}

fn push_edge(s: &mut String, e: &Vec<Atom>)
    requires
        forall|j: int| 0 <= j < e@.len() ==> #[trigger] e@[j] != i64::MIN,
    ensures
        final(s)@ == old(s)@ + edge_text(e@),
{
    let ghost items = e@.map_values(|a: Atom| atom_text(a));
    push_char(s, '{');
    let ghost start = s@;
    let mut j: usize = 0;
    while j < e.len()
        invariant
            j <= e.len(),
            items == e@.map_values(|a: Atom| atom_text(a)),
            forall|q: int| 0 <= q < e@.len() ==> #[trigger] e@[q] != i64::MIN,
            s@ == start + joined(items.take(j as int)),
        decreases e.len() - j,
    {
        if j > 0 {
            s.append(", ");
        }
        push_atom(s, e[j]);
        proof {
            assert(items.take(j + 1).drop_last() =~= items.take(j as int));
            if j == 0 {
                assert(joined(items.take(1)) == items[0]);
            }
            assert(s@ =~= start + joined(items.take(j + 1)));
        }
        j = j + 1;
    }
    push_char(s, '}');
    proof {
        assert(items.take(e.len() as int) =~= items);
        assert(s@ =~= old(s)@ + edge_text(e@));
    }
}

fn push_side(s: &mut String, es: &Vec<Vec<Atom>>)
    requires
        no_min_atom(crate::rule::edges_of(*es)),
    ensures
        final(s)@ == old(s)@ + side_text(crate::rule::edges_of(*es)),
{
    let ghost edges = crate::rule::edges_of(*es);
    let ghost items = edges.map_values(|e: Seq<Atom>| edge_text(e));
    push_char(s, '{');
    let ghost start = s@;
    let mut i: usize = 0;
    while i < es.len()
        invariant
            i <= es.len(),
            edges == crate::rule::edges_of(*es),
            items == edges.map_values(|e: Seq<Atom>| edge_text(e)),
            no_min_atom(edges),
            s@ == start + joined(items.take(i as int)),
        decreases es.len() - i,
    {
        if i > 0 {
            s.append(", ");
        }
        proof {
            assert forall|j: int| 0 <= j < es@[i as int]@.len() implies #[trigger] es@[i as int]@[j] != i64::MIN by {
                assert(edges[i as int] == es@[i as int]@);
                assert(edges[i as int][j] != i64::MIN);
            }
        }
        push_edge(s, &es[i]);
        proof {
            assert(items[i as int] == edge_text(es@[i as int]@));
            assert(items.take(i + 1).drop_last() =~= items.take(i as int));
            if i == 0 {
                assert(joined(items.take(1)) == items[0]);
            }
            assert(s@ =~= start + joined(items.take(i + 1)));
        }
        i = i + 1;
    }
    push_char(s, '}');
    proof {
        assert(items.take(es.len() as int) =~= items);
        assert(s@ =~= old(s)@ + side_text(edges));
    }
}

/// The rule in list notation, e.g. `{{x1, x2}} -> {{x1, x2}, {x2, x3}}`:
/// pattern variable `-k` is written `xk`, concrete atoms as numbers.
pub fn rule_text(rule: &Rule) -> (s: String)
    requires
        no_min_atom(rule.spec_inputs()),
        no_min_atom(rule.spec_outputs()),
    ensures
        s@ == rule_notation(rule.spec_inputs(), rule.spec_outputs()),
{
    let mut s = String::new();
    push_side(&mut s, &rule.inputs);
    s.append(" -> ");
    push_side(&mut s, &rule.outputs);
    proof {
        assert(s@ =~= rule_notation(rule.spec_inputs(), rule.spec_outputs()));
    }
    s
}

} // verus!
