//! Names: event-ordering functions and termination reasons by their Wolfram
//! Language names, and rules written with named pattern variables.

use vstd::prelude::*;

use crate::error::Error;
use crate::ordering::OrderingFunction;
use crate::rule::Atom;
use crate::rule::Rule;
use crate::system::TerminationReason;

verus! {

broadcast use vstd::seq_lib::lemma_seq_contains_after_push;

/// The Wolfram Language name of an event-ordering function.
pub open spec fn ordering_name(f: OrderingFunction) -> Seq<char> {
    match f {
        OrderingFunction::OldestEdge => "OldestEdge"@,
        OrderingFunction::LeastOldEdge => "LeastOldEdge"@,
        OrderingFunction::LeastRecentEdge => "LeastRecentEdge"@,
        OrderingFunction::NewestEdge => "NewestEdge"@,
        OrderingFunction::RuleOrdering => "RuleOrdering"@,
        OrderingFunction::ReverseRuleOrdering => "ReverseRuleOrdering"@,
        OrderingFunction::RuleIndex => "RuleIndex"@,
        OrderingFunction::ReverseRuleIndex => "ReverseRuleIndex"@,
        OrderingFunction::Random => "Random"@,
        OrderingFunction::Any => "Any"@,
    }
}

/// Whether `name` is the text `lit`.
fn is_text(name: &String, lit: &str) -> (r: bool)
    ensures
        r == (name@ == lit@),
{
    let other = String::from_str(lit);
    name.eq(&other)
}

impl OrderingFunction {
    /// The ordering function of a Wolfram Language name (`"OldestEdge"`,
    /// ..., `"Any"`), if `name` is one.
    pub fn from_name(name: &String) -> (r: Option<OrderingFunction>)
        ensures
            r matches Some(f) ==> ordering_name(f) == name@,
            r is None ==> forall|f: OrderingFunction| ordering_name(f) != name@,
    {
        if is_text(name, "OldestEdge") {
            Some(OrderingFunction::OldestEdge)
        } else if is_text(name, "LeastOldEdge") {
            Some(OrderingFunction::LeastOldEdge)
        } else if is_text(name, "LeastRecentEdge") {
            Some(OrderingFunction::LeastRecentEdge)
        } else if is_text(name, "NewestEdge") {
            Some(OrderingFunction::NewestEdge)
        } else if is_text(name, "RuleOrdering") {
            Some(OrderingFunction::RuleOrdering)
        } else if is_text(name, "ReverseRuleOrdering") {
            Some(OrderingFunction::ReverseRuleOrdering)
        } else if is_text(name, "RuleIndex") {
            Some(OrderingFunction::RuleIndex)
        } else if is_text(name, "ReverseRuleIndex") {
            Some(OrderingFunction::ReverseRuleIndex)
        } else if is_text(name, "Random") {
            Some(OrderingFunction::Random)
        } else if is_text(name, "Any") {
            Some(OrderingFunction::Any)
        } else {
            proof {
                assert forall|f: OrderingFunction| ordering_name(f) != name@ by {
                    match f {
                        OrderingFunction::OldestEdge => {},
                        OrderingFunction::LeastOldEdge => {},
                        OrderingFunction::LeastRecentEdge => {},
                        OrderingFunction::NewestEdge => {},
                        OrderingFunction::RuleOrdering => {},
                        OrderingFunction::ReverseRuleOrdering => {},
                        OrderingFunction::RuleIndex => {},
                        OrderingFunction::ReverseRuleIndex => {},
                        OrderingFunction::Random => {},
                        OrderingFunction::Any => {},
                    }
                }
            }
            None
        }
    }
}

/// The Wolfram Language name of a termination reason.
pub open spec fn reason_name(r: TerminationReason) -> Seq<char> {
    match r {
        TerminationReason::NotTerminated => "NotTerminated"@,
        TerminationReason::MaxEvents => "MaxEvents"@,
        TerminationReason::MaxGenerations => "MaxGenerations"@,
        TerminationReason::MaxVertices => "MaxVertices"@,
        TerminationReason::MaxVertexDegree => "MaxVertexDegree"@,
        TerminationReason::MaxEdges => "MaxEdges"@,
        TerminationReason::FixedPoint => "FixedPoint"@,
    }
}

impl TerminationReason {
    /// The Wolfram Language name of the reason (`"MaxEvents"`, ...).
    pub fn name(&self) -> (s: &'static str)
        ensures
            s@ == reason_name(*self),
    {
        match self {
            TerminationReason::NotTerminated => "NotTerminated",
            TerminationReason::MaxEvents => "MaxEvents",
            TerminationReason::MaxGenerations => "MaxGenerations",
            TerminationReason::MaxVertices => "MaxVertices",
            TerminationReason::MaxVertexDegree => "MaxVertexDegree",
            TerminationReason::MaxEdges => "MaxEdges",
            TerminationReason::FixedPoint => "FixedPoint",
        }
    }
}

/// An atom of a rule written with named pattern variables: a concrete atom,
/// or a variable by name.
#[derive(Debug, Clone)]
pub enum NamedAtom {
    Atom(Atom),
    Variable(String),
}

/// All atoms of the edges, edge after edge.
pub open spec fn named_sequence(edges: Seq<Seq<NamedAtom>>) -> Seq<NamedAtom>
    decreases edges.len(),
{
    if edges.len() == 0 {
        Seq::empty()
    } else {
        named_sequence(edges.drop_last()) + edges.last()
    }
}

/// The variable names of `items`, each once, in order of first appearance.
pub open spec fn variable_names(items: Seq<NamedAtom>) -> Seq<Seq<char>>
    decreases items.len(),
{
    if items.len() == 0 {
        Seq::empty()
    } else {
        let p = variable_names(items.drop_last());
        match items.last() {
            NamedAtom::Variable(s) => if p.contains(s@) {
                p
            } else {
                p.push(s@)
            },
            NamedAtom::Atom(_) => p,
        }
    }
}

/// The first position of `x` in `names` (the length when absent).
pub open spec fn position(names: Seq<Seq<char>>, x: Seq<char>) -> int
    decreases names.len(),
{
    if names.len() == 0 {
        0
    } else if names[0] == x {
        0
    } else {
        1 + position(names.drop_first(), x)
    }
}

/// A named atom as an atom: concrete atoms stay, the variable at position
/// `k` of `names` becomes `-(k + 1)`.
pub open spec fn resolved(a: NamedAtom, names: Seq<Seq<char>>) -> Atom {
    match a {
        NamedAtom::Atom(n) => n,
        NamedAtom::Variable(s) => (-(position(names, s@) + 1)) as Atom,
    }
}

/// The edges with every named atom resolved.
pub open spec fn resolved_edges(edges: Seq<Seq<NamedAtom>>, names: Seq<Seq<char>>) -> Seq<Seq<Atom>> {
    edges.map_values(|e: Seq<NamedAtom>| e.map_values(|a: NamedAtom| resolved(a, names)))
}

/// The edges of a rule side as sequences.
pub open spec fn named_edges_of(v: Vec<Vec<NamedAtom>>) -> Seq<Seq<NamedAtom>> {
    v@.map_values(|e: Vec<NamedAtom>| e@)
}

proof fn lemma_position_push(names: Seq<Seq<char>>, y: Seq<char>, x: Seq<char>)
    requires
        names.contains(x),
    ensures
        position(names.push(y), x) == position(names, x),
        0 <= position(names, x) < names.len(),
        names[position(names, x)] == x,
    decreases names.len(),
{
    if names[0] != x {
        assert(names.drop_first().contains(x)) by {
            let k = choose|k: int| 0 <= k < names.len() && names[k] == x;
            assert(names.drop_first()[k - 1] == x);
        }
        assert(names.push(y).drop_first() =~= names.drop_first().push(y));
        lemma_position_push(names.drop_first(), y, x);
    }
}

proof fn lemma_position_last(names: Seq<Seq<char>>, x: Seq<char>)
    requires
        !names.contains(x),
    ensures
        position(names.push(x), x) == names.len(),
        position(names, x) == names.len(),
    decreases names.len(),
{
    if names.len() > 0 {
        assert(names[0] != x);
        assert(!names.drop_first().contains(x)) by {
            if names.drop_first().contains(x) {
                let k = choose|k: int| 0 <= k < names.drop_first().len() && names.drop_first()[k] == x;
                assert(names[k + 1] == x);
            }
        }
        assert(names.push(x).drop_first() =~= names.drop_first().push(x));
        lemma_position_last(names.drop_first(), x);
    } else {
        assert(names.push(x)[0] == x);
    }
}

/// The names of a prefix are a prefix of the names.
proof fn lemma_names_prefix(items: Seq<NamedAtom>, k: int)
    requires
        0 <= k <= items.len(),
    ensures
        variable_names(items.take(k)).len() <= variable_names(items).len(),
        variable_names(items.take(k)) == variable_names(items).take(variable_names(items.take(k)).len() as int),
    decreases items.len() - k,
{
    if k < items.len() {
        lemma_names_prefix(items, k + 1);
        assert(items.take(k + 1).drop_last() =~= items.take(k));
    } else {
        assert(items.take(k) =~= items);
    }
}

/// The position of a name within a prefix of the names is its position in
/// all names.
proof fn lemma_position_prefix(names: Seq<Seq<char>>, k: int, x: Seq<char>)
    requires
        0 <= k <= names.len(),
        names.take(k).contains(x),
    ensures
        position(names.take(k), x) == position(names, x),
    decreases k,
{
    if names[0] != x {
        assert(names.take(k).drop_first() =~= names.drop_first().take(k - 1));
        assert(names.drop_first().take(k - 1).contains(x)) by {
            let j = choose|j: int| 0 <= j < k && names.take(k)[j] == x;
            assert(names.drop_first().take(k - 1)[j - 1] == x);
        }
        lemma_position_prefix(names.drop_first(), k - 1, x);
    } else {
        assert(names.take(k)[0] == x);
    }
}

proof fn lemma_position_found(names: Seq<Seq<char>>, x: Seq<char>, k: int)
    requires
        0 <= k < names.len(),
        names[k] == x,
        forall|q: int| 0 <= q < k ==> names[q] != x,
    ensures
        position(names, x) == k,
    decreases k,
{
    if k > 0 {
        assert(names[0] != x);
        assert forall|q: int| 0 <= q < k - 1 implies names.drop_first()[q] != x by {
            assert(names.drop_first()[q] == names[q + 1]);
        }
        lemma_position_found(names.drop_first(), x, k - 1);
    }
}

/// The atoms of the first `k` edges are a prefix of all atoms.
proof fn lemma_named_sequence_prefix(es: Seq<Seq<NamedAtom>>, k: int)
    requires
        0 <= k <= es.len(),
    ensures
        named_sequence(es.take(k)).len() <= named_sequence(es).len(),
        named_sequence(es.take(k)) == named_sequence(es).take(named_sequence(es.take(k)).len() as int),
    decreases es.len() - k,
{
    if k < es.len() {
        lemma_named_sequence_prefix(es, k + 1);
        assert(es.take(k + 1).drop_last() =~= es.take(k));
        let a = named_sequence(es.take(k));
        let b = named_sequence(es.take(k + 1));
        assert(b == a + es[k]);
        assert(a =~= b.take(a.len() as int));
        assert(a =~= named_sequence(es).take(a.len() as int));
    } else {
        assert(es.take(k) =~= es);
        assert(named_sequence(es).take(named_sequence(es).len() as int) =~= named_sequence(es));
    }
}

/// The position of `s` among `names`, if there.
fn find_name(names: &Vec<String>, s: &String) -> (r: Option<usize>)
    ensures
        r matches Some(k) ==> k < names.len() && names@[k as int]@ == s@ && forall|q: int|
            0 <= q < k ==> (#[trigger] names@[q])@ != s@,
        r is None ==> forall|q: int| 0 <= q < names.len() ==> (#[trigger] names@[q])@ != s@,
{
    let mut k: usize = 0;
    while k < names.len()
        invariant
            k <= names.len(),
            forall|q: int| 0 <= q < k ==> (#[trigger] names@[q])@ != s@,
        decreases names.len() - k,
    {
        if names[k].eq(s) {
            return Some(k);
        }
        k = k + 1;
    }
    None
}

/// Resolves one side's edges, extending `names` (by view, the names met so
/// far) with the variables met, in order.
fn resolve_side(
    edges: &Vec<Vec<NamedAtom>>,
    names: &mut Vec<String>,
    Ghost(before): Ghost<Seq<NamedAtom>>,
    Ghost(all): Ghost<Seq<NamedAtom>>,
) -> (r: Vec<Vec<Atom>>)
    requires
        old(names)@.map_values(|s: String| s@) == variable_names(before),
        before.len() + named_sequence(named_edges_of(*edges)).len() <= all.len(),
        all.take((before.len() + named_sequence(named_edges_of(*edges)).len()) as int) == before + named_sequence(
            named_edges_of(*edges),
        ),
        variable_names(all).len() < i64::MAX,
    ensures
        final(names)@.map_values(|s: String| s@) == variable_names(before + named_sequence(named_edges_of(*edges))),
        crate::rule::edges_of(r) == resolved_edges(named_edges_of(*edges), variable_names(all)),
{
    let ghost es = named_edges_of(*edges);
    let ghost total = variable_names(all);
    let mut out: Vec<Vec<Atom>> = Vec::new();
    let mut i: usize = 0;
    proof {
        assert(es.take(0) =~= Seq::<Seq<NamedAtom>>::empty());
        assert(before + named_sequence(es.take(0)) =~= before);
    }
    while i < edges.len()
        invariant
            i <= edges.len(),
            es == named_edges_of(*edges),
            total == variable_names(all),
            total.len() < i64::MAX,
            before.len() + named_sequence(es).len() <= all.len(),
            all.take((before.len() + named_sequence(es).len()) as int) == before + named_sequence(es),
            names@.map_values(|s: String| s@) == variable_names(before + named_sequence(es.take(i as int))),
            out.len() == i,
            forall|q: int| 0 <= q < i ==> (#[trigger] out@[q])@ == resolved_edges(es, total)[q],
        decreases edges.len() - i,
    {
        let edge = &edges[i];
        let ghost start = before + named_sequence(es.take(i as int));
        proof {
            lemma_named_sequence_prefix(es, i + 1);
            assert(es.take(i + 1).drop_last() =~= es.take(i as int));
            assert(es[i as int] == edge@);
            let ns = named_sequence(es);
            let l = named_sequence(es.take(i + 1)).len();
            assert(start + edge@ =~= before + ns.take(l as int));
            assert((before + ns).take((before.len() + l) as int) =~= before + ns.take(l as int));
            assert(all.take((before.len() + l) as int) =~= all.take((before.len() + ns.len()) as int).take((before.len() + l) as int));
        }
        let mut row: Vec<Atom> = Vec::new();
        let mut j: usize = 0;
        proof {
            assert(start + edge@.take(0) =~= start);
        }
        while j < edge.len()
            invariant
                j <= edge.len(),
                total == variable_names(all),
                total.len() < i64::MAX,
                start.len() + edge@.len() <= all.len(),
                start + edge@ == all.take((start.len() + edge@.len()) as int),
                names@.map_values(|s: String| s@) == variable_names(start + edge@.take(j as int)),
                row.len() == j,
                forall|q: int| 0 <= q < j ==> #[trigger] row@[q] == resolved(edge@[q], total),
            decreases edge.len() - j,
        {
            let ghost cur = start + edge@.take(j as int);
            let ghost seen = names@.map_values(|x: String| x@);
            proof {
                assert(start + edge@.take(j + 1) =~= cur.push(edge@[j as int]));
                assert(cur.push(edge@[j as int]).drop_last() =~= cur);
                assert(cur.push(edge@[j as int]) =~= all.take((cur.len() + 1) as int)) by {
                    assert(all.take((cur.len() + 1) as int) =~= all.take((start.len() + edge@.len()) as int).take((cur.len() + 1) as int));
                }
                lemma_names_prefix(all, (cur.len() + 1) as int);
            }
            match &edge[j] {
                NamedAtom::Atom(n) => {
                    row.push(*n);
                },
                NamedAtom::Variable(s) => {
                    match find_name(names, s) {
                        Some(k) => {
                            proof {
                                assert(seen[k as int] == s@);
                                assert forall|q: int| 0 <= q < k implies seen[q] != s@ by {
                                    assert(names@[q]@ != s@);
                                }
                                lemma_position_found(seen, s@, k as int);
                                assert(seen.contains(s@));
                                assert(variable_names(cur.push(edge@[j as int])) == seen);
                                assert(seen =~= total.take(seen.len() as int));
                                lemma_position_prefix(total, seen.len() as int, s@);
                            }
                            let v: i64 = k as i64;
                            row.push(-(v + 1));
                        },
                        None => {
                            proof {
                                assert(!seen.contains(s@)) by {
                                    if seen.contains(s@) {
                                        let q = choose|q: int| 0 <= q < seen.len() && seen[q] == s@;
                                        assert(names@[q]@ != s@);
                                    }
                                }
                                lemma_position_last(seen, s@);
                                let grown = seen.push(s@);
                                assert(variable_names(cur.push(edge@[j as int])) == grown);
                                assert(grown =~= total.take(grown.len() as int));
                                assert(grown.contains(s@)) by {
                                    assert(grown[seen.len() as int] == s@);
                                }
                                lemma_position_prefix(total, grown.len() as int, s@);
                            }
                            let k = names.len();
                            names.push(s.clone());
                            proof {
                                assert(names@.map_values(|x: String| x@) =~= seen.push(s@));
                            }
                            let v: i64 = k as i64;
                            row.push(-(v + 1));
                        },
                    }
                },
            }
            j = j + 1;
        }
        proof {
            assert(edge@.take(edge.len() as int) =~= edge@);
            assert(row@ =~= resolved_edges(es, total)[i as int]);
            assert(start + edge@ =~= before + named_sequence(es.take(i + 1)));
        }
        out.push(row);
        i = i + 1;
    }
    proof {
        assert(es.take(edges.len() as int) =~= es);
        assert(crate::rule::edges_of(out) =~= resolved_edges(es, total));
    }
    out
}

/// A rule written with named variables: variables are numbered in order of
/// first appearance (inputs first), the `k`-th becoming atom `-k`; then the
/// rule is validated as by [`Rule::new`].
pub fn rule_from_named(inputs: &Vec<Vec<NamedAtom>>, outputs: &Vec<Vec<NamedAtom>>) -> (r: Result<Rule, Error>)
    requires
        named_sequence(named_edges_of(*inputs) + named_edges_of(*outputs)).len() < i64::MAX,
    ensures
        ({
            let names = variable_names(named_sequence(named_edges_of(*inputs) + named_edges_of(*outputs)));
            let ins = resolved_edges(named_edges_of(*inputs), names);
            let outs = resolved_edges(named_edges_of(*outputs), names);
            &&& r is Ok <==> crate::rule::valid_rule(ins, outs)
            &&& r matches Ok(rule) ==> rule.spec_inputs() == ins && rule.spec_outputs() == outs
            &&& r matches Err(Error::InvalidRule(m)) ==> (if ins.len() == 0 {
                m@ == "rule must have at least one input edge"@
            } else {
                m@ == "atom 0 is invalid; use positive atoms (concrete) or negative (variables)"@
            })
            &&& r matches Err(e) ==> e is InvalidRule
        }),
{
    let ghost ie = named_edges_of(*inputs);
    let ghost oe = named_edges_of(*outputs);
    let ghost all = named_sequence(ie + oe);
    proof {
        lemma_named_sequence_concat(ie, oe);
        lemma_variable_names_len(all);
        assert(all.take(named_sequence(ie).len() as int) =~= named_sequence(ie));
        assert(Seq::<NamedAtom>::empty() + named_sequence(ie) =~= named_sequence(ie));
        assert(all.take(all.len() as int) =~= all);
    }
    let mut names: Vec<String> = Vec::new();
    proof {
        assert(names@.map_values(|s: String| s@) =~= variable_names(Seq::<NamedAtom>::empty()));
    }
    let ins = resolve_side(inputs, &mut names, Ghost(Seq::empty()), Ghost(all));
    let outs = resolve_side(outputs, &mut names, Ghost(named_sequence(ie)), Ghost(all));
    Rule::new(ins, outs)
}

/// The atoms of two lists of edges are those of the first, then those of
/// the second.
proof fn lemma_named_sequence_concat(a: Seq<Seq<NamedAtom>>, b: Seq<Seq<NamedAtom>>)
    ensures
        named_sequence(a + b) == named_sequence(a) + named_sequence(b),
    decreases b.len(),
{
    if b.len() == 0 {
        assert(a + b =~= a);
        assert(named_sequence(a) + named_sequence(b) =~= named_sequence(a));
    } else {
        assert((a + b).drop_last() =~= a + b.drop_last());
        lemma_named_sequence_concat(a, b.drop_last());
        assert(named_sequence(a) + named_sequence(b) =~= named_sequence(a) + named_sequence(b.drop_last()) + b.last());
    }
}

proof fn lemma_variable_names_len(items: Seq<NamedAtom>)
    ensures
        variable_names(items).len() <= items.len(),
    decreases items.len(),
{
    if items.len() > 0 {
        lemma_variable_names_len(items.drop_last());
    }
}

} // verus!
